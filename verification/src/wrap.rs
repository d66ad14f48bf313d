use vstd::prelude::*;

verus! {

/// No output line of the pixel section may exceed this many
/// characters, its newline not counted.
pub open spec fn line_budget() -> int {
    70
}

/// Greedy line packing, the current unterminated line given: while the
/// next token fits on the line behind a single space, it is appended;
/// otherwise the line is closed with a newline and the token opens the
/// next line. The first token of a line is always placed, so a token
/// wider than the whole budget still comes out whole, on a line of its
/// own, rather than being split.
pub open spec fn wrap_onto(tokens: Seq<Seq<u8>>, line: Seq<u8>) -> Seq<u8>
    decreases tokens.len(),
{
    if tokens.len() == 0 {
        line.push(10u8)
    } else if line.len() + 1 + tokens[0].len() <= line_budget() {
        wrap_onto(tokens.skip(1), line + seq![32u8] + tokens[0])
    } else {
        line.push(10u8) + wrap_onto(tokens.skip(1), tokens[0])
    }
}

/// A token sequence wrapped into newline-terminated lines of at most
/// `line_budget` characters each.
pub open spec fn wrapped_lines(tokens: Seq<Seq<u8>>) -> Seq<u8> {
    if tokens.len() == 0 {
        Seq::empty()
    } else {
        wrap_onto(tokens.skip(1), tokens[0])
    }
}

/// Wraps a row's tokens, computed.
pub fn group_by_line_length(tokens: &Vec<Vec<u8>>) -> (out: Vec<u8>)
    ensures
        out@ == wrapped_lines(tokens.deep_view()),
{
    let ghost toks = tokens.deep_view();
    let mut out: Vec<u8> = Vec::new();
    if tokens.len() == 0 {
        proof {
            assert(out@ =~= wrapped_lines(toks));
        }
        return out;
    }
    let mut line: Vec<u8> = clone_bytes(&tokens[0]);
    let mut i: usize = 1;
    proof {
        assert(toks[0] == tokens[0]@);
        assert(wrapped_lines(toks) == wrap_onto(toks.skip(1), line@));
    }
    while i < tokens.len()
        invariant
            1 <= i <= tokens@.len(),
            toks == tokens.deep_view(),
            toks.len() == tokens@.len(),
            wrapped_lines(toks) == out@ + wrap_onto(toks.skip(i as int), line@),
        decreases tokens@.len() - i,
    {
        let t = &tokens[i];
        let ghost line0 = line@;
        let ghost out0 = out@;
        proof {
            assert(toks[i as int] == tokens@[i as int]@);
            assert(toks.skip(i as int)[0] == toks[i as int]);
            assert(toks.skip(i as int).skip(1) =~= toks.skip(i as int + 1));
        }
        if line.len() < 70 && t.len() <= 70 - 1 - line.len() {
            line.push(32u8);
            append_bytes(&mut line, t);
            proof {
                assert(line@ =~= line0 + seq![32u8] + toks[i as int]);
                assert(wrap_onto(toks.skip(i as int), line0) == wrap_onto(
                    toks.skip(i as int + 1),
                    line@,
                ));
            }
        } else {
            proof {
                assert(!(line0.len() + 1 + toks[i as int].len() <= line_budget()));
            }
            line.push(10u8);
            out.append(&mut line);
            line = clone_bytes(t);
            proof {
                assert(out@ == out0 + line0.push(10u8));
                assert(wrapped_lines(toks) == out@ + wrap_onto(toks.skip(i as int + 1), line@));
            }
        }
        i = i + 1;
    }
    proof {
        assert(toks.skip(i as int) =~= Seq::<Seq<u8>>::empty());
        assert(wrap_onto(toks.skip(i as int), line@) == line@.push(10u8));
    }
    line.push(10u8);
    out.append(&mut line);
    out
}

/// Copies a byte vector.
fn clone_bytes(src: &Vec<u8>) -> (dst: Vec<u8>)
    ensures
        dst@ == src@,
{
    let mut dst: Vec<u8> = Vec::new();
    let mut i: usize = 0;
    while i < src.len()
        invariant
            i <= src@.len(),
            dst@ == src@.take(i as int),
        decreases src@.len() - i,
    {
        dst.push(src[i]);
        proof {
            assert(dst@ =~= src@.take(i as int + 1));
        }
        i = i + 1;
    }
    proof {
        assert(src@.take(i as int) =~= src@);
    }
    dst
}

/// Appends a copy of `src` to `dst`.
fn append_bytes(dst: &mut Vec<u8>, src: &Vec<u8>)
    ensures
        final(dst)@ == old(dst)@ + src@,
{
    let ghost d0 = old(dst)@;
    let mut i: usize = 0;
    while i < src.len()
        invariant
            i <= src@.len(),
            dst@ == d0 + src@.take(i as int),
        decreases src@.len() - i,
    {
        dst.push(src[i]);
        proof {
            assert(dst@ =~= d0 + src@.take(i as int + 1));
        }
        i = i + 1;
    }
    proof {
        assert(d0 + src@.take(i as int) =~= d0 + src@);
    }
}

/// Wrapped output always closes with a newline.
pub proof fn lemma_wrap_onto_ends_newline(tokens: Seq<Seq<u8>>, line: Seq<u8>)
    ensures
        wrap_onto(tokens, line).len() >= 1,
        wrap_onto(tokens, line).last() == 10u8,
    decreases tokens.len(),
{
    if tokens.len() == 0 {
    } else if line.len() + 1 + tokens[0].len() <= line_budget() {
        lemma_wrap_onto_ends_newline(tokens.skip(1), line + seq![32u8] + tokens[0]);
    } else {
        lemma_wrap_onto_ends_newline(tokens.skip(1), tokens[0]);
    }
}

/// Newlines read as the spaces they replaced.
pub open spec fn newlines_as_spaces(s: Seq<u8>) -> Seq<u8> {
    s.map_values(
        |x: u8|
            if x == 10u8 {
                32u8
            } else {
                x
            },
    )
}

/// A byte sequence that holds no newline.
pub open spec fn newline_free(s: Seq<u8>) -> bool {
    forall|i: int| 0 <= i < s.len() ==> s[i] != 10u8
}

/// The unwrapped form of a token sequence: every token followed by one
/// space.
pub open spec fn raw_tokens(tokens: Seq<Seq<u8>>) -> Seq<u8>
    decreases tokens.len(),
{
    if tokens.len() == 0 {
        Seq::empty()
    } else {
        tokens[0].push(32u8) + raw_tokens(tokens.skip(1))
    }
}

/// Wrapping never splits or reorders a token: turning the newlines of
/// the wrapped output back into spaces gives the raw, unwrapped row.
pub proof fn lemma_wrap_onto_preserves(tokens: Seq<Seq<u8>>, line: Seq<u8>)
    requires
        newline_free(line),
        forall|t: int| 0 <= t < tokens.len() ==> newline_free(#[trigger] tokens[t]),
    ensures
        newlines_as_spaces(wrap_onto(tokens, line)) == line.push(32u8) + raw_tokens(tokens),
    decreases tokens.len(),
{
    if tokens.len() == 0 {
        assert(newlines_as_spaces(line.push(10u8)) =~= line.push(32u8));
        assert(line.push(32u8) + raw_tokens(tokens) =~= line.push(32u8));
    } else if line.len() + 1 + tokens[0].len() <= line_budget() {
        let line2 = line + seq![32u8] + tokens[0];
        assert(newline_free(line2));
        lemma_wrap_onto_preserves(tokens.skip(1), line2);
        assert(line2.push(32u8) + raw_tokens(tokens.skip(1)) =~= line.push(32u8) + raw_tokens(
            tokens,
        ));
    } else {
        lemma_wrap_onto_preserves(tokens.skip(1), tokens[0]);
        let tail = wrap_onto(tokens.skip(1), tokens[0]);
        assert(newlines_as_spaces(line.push(10u8) + tail) =~= newlines_as_spaces(line.push(10u8))
            + newlines_as_spaces(tail));
        assert(newlines_as_spaces(line.push(10u8)) =~= line.push(32u8));
        assert(line.push(32u8) + (tokens[0].push(32u8) + raw_tokens(tokens.skip(1))) =~= line.push(
            32u8,
        ) + raw_tokens(tokens));
    }
}

/// The same, for a whole row of tokens.
pub proof fn lemma_wrapped_lines_preserve(tokens: Seq<Seq<u8>>)
    requires
        forall|t: int| 0 <= t < tokens.len() ==> newline_free(#[trigger] tokens[t]),
    ensures
        newlines_as_spaces(wrapped_lines(tokens)) == raw_tokens(tokens),
    decreases tokens.len(),
{
    if tokens.len() == 0 {
        assert(newlines_as_spaces(wrapped_lines(tokens)) =~= raw_tokens(tokens));
    } else {
        lemma_wrap_onto_preserves(tokens.skip(1), tokens[0]);
        assert(tokens[0].push(32u8) + raw_tokens(tokens.skip(1)) =~= raw_tokens(tokens));
    }
}

/// There is a newline within the 71-byte window of `s` that starts at
/// `i`.
pub open spec fn has_newline_within(s: Seq<u8>, i: int) -> bool {
    exists|k: int| i <= k < i + line_budget() + 1 && s[k] == 10u8
}

/// No run of 71 consecutive bytes of `s` is newline-free; that is, no
/// line of `s` exceeds the budget of 70 characters.
pub open spec fn within_line_budget(s: Seq<u8>) -> bool {
    forall|i: int| 0 <= i && i + line_budget() + 1 <= s.len() ==> #[trigger] has_newline_within(s, i)
}

/// Concatenation keeps the budget when the left part closes with a
/// newline: a window across the seam always sees that newline.
pub proof fn lemma_budget_concat(a: Seq<u8>, b: Seq<u8>)
    requires
        within_line_budget(a),
        within_line_budget(b),
        a.len() >= 1,
        a.last() == 10u8,
    ensures
        within_line_budget(a + b),
{
    let s = a + b;
    assert forall|i: int| 0 <= i && i + line_budget() + 1 <= s.len() implies #[trigger]
    has_newline_within(s, i) by {
        if i + line_budget() + 1 <= a.len() {
            assert(has_newline_within(a, i));
            let k = choose|k: int| i <= k < i + line_budget() + 1 && a[k] == 10u8;
            assert(s[k] == 10u8);
        } else if i >= a.len() {
            assert(has_newline_within(b, i - a.len()));
            let k = choose|k: int|
                i - a.len() <= k < i - a.len() + line_budget() + 1 && b[k] == 10u8;
            assert(s[k + a.len()] == 10u8);
        } else {
            let k = a.len() - 1;
            assert(s[k] == 10u8);
        }
    }
}

/// A newline-terminated sequence no longer than budget-plus-newline is
/// within budget.
pub proof fn lemma_budget_short(s: Seq<u8>)
    requires
        s.len() <= line_budget() + 1,
        s.len() >= 1 ==> s.last() == 10u8,
    ensures
        within_line_budget(s),
{
    assert forall|i: int| 0 <= i && i + line_budget() + 1 <= s.len() implies #[trigger]
    has_newline_within(s, i) by {
        assert(i == 0 && s.len() == line_budget() + 1);
        assert(s[s.len() - 1] == 10u8);
    }
}

/// Greedy wrapping keeps every line within the budget, provided no
/// single token exceeds it and the line brought in is within it too.
pub proof fn lemma_wrap_onto_budget(tokens: Seq<Seq<u8>>, line: Seq<u8>)
    requires
        line.len() <= line_budget(),
        forall|t: int| 0 <= t < tokens.len() ==> (#[trigger] tokens[t]).len() <= line_budget(),
    ensures
        within_line_budget(wrap_onto(tokens, line)),
    decreases tokens.len(),
{
    if tokens.len() == 0 {
        lemma_budget_short(line.push(10u8));
    } else if line.len() + 1 + tokens[0].len() <= line_budget() {
        lemma_wrap_onto_budget(tokens.skip(1), line + seq![32u8] + tokens[0]);
    } else {
        lemma_wrap_onto_budget(tokens.skip(1), tokens[0]);
        lemma_budget_short(line.push(10u8));
        lemma_budget_concat(line.push(10u8), wrap_onto(tokens.skip(1), tokens[0]));
    }
}

/// A wrapped row of tokens is within the line budget.
pub proof fn lemma_wrapped_lines_budget(tokens: Seq<Seq<u8>>)
    requires
        forall|t: int| 0 <= t < tokens.len() ==> (#[trigger] tokens[t]).len() <= line_budget(),
    ensures
        within_line_budget(wrapped_lines(tokens)),
{
    if tokens.len() == 0 {
        lemma_budget_short(wrapped_lines(tokens));
    } else {
        lemma_wrap_onto_budget(tokens.skip(1), tokens[0]);
    }
}

} // verus!
