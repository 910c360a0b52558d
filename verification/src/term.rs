//! Terminal decoration: wrap text in ANSI formatting codes while keeping
//! any formatting already present, including formatting that continues
//! past the end of the input.
//!
//! Text is handled as bytes, like the rest of the library; the codes are
//! plain ASCII escape sequences.

use crate::booths::{bytes_contains, contains_sub};
use vstd::prelude::*;

verus! {

/// The stop-all-formatting code.
pub open spec fn spec_end_code() -> Seq<u8> {
    seq![27u8, 91u8, 48u8, 109u8]
}

/// The formatting codes that span text: bold, faint, italic (rendered
/// faint), underline, and negative.
pub open spec fn spec_span_code(d: int) -> Seq<u8> {
    if d == 0 {
        seq![27u8, 91u8, 49u8, 109u8]
    } else if d == 1 {
        seq![27u8, 91u8, 50u8, 109u8]
    } else if d == 2 {
        seq![27u8, 91u8, 50u8, 109u8]
    } else if d == 3 {
        seq![27u8, 91u8, 52u8, 109u8]
    } else {
        seq![27u8, 91u8, 55u8, 109u8]
    }
}

/// First occurrence of `sep` at or after `i`.
pub open spec fn find_sub(s: Seq<u8>, sep: Seq<u8>, i: int) -> Option<int>
    decreases s.len() + 1 - i,
{
    if i < 0 || i + sep.len() > s.len() {
        None
    } else if s.subrange(i, i + sep.len()) == sep {
        Some(i)
    } else {
        find_sub(s, sep, i + 1)
    }
}

proof fn lemma_find_sub_range(s: Seq<u8>, sep: Seq<u8>, i: int)
    requires
        0 <= i,
    ensures
        find_sub(s, sep, i) matches Some(k) ==> i <= k && k + sep.len() <= s.len(),
    decreases s.len() + 1 - i,
{
    if !(i < 0 || i + sep.len() > s.len()) && s.subrange(i, i + sep.len()) != sep {
        lemma_find_sub_range(s, sep, i + 1);
    }
}

/// `s` from position `i` with every occurrence of `sep` removed,
/// scanning left to right.
pub open spec fn remove_sub_from(s: Seq<u8>, sep: Seq<u8>, i: int) -> Seq<u8>
    decreases s.len() - i,
{
    if i < 0 || i >= s.len() {
        Seq::<u8>::empty()
    } else if sep.len() > 0 && i + sep.len() <= s.len() && s.subrange(i, i + sep.len()) == sep {
        remove_sub_from(s, sep, i + sep.len())
    } else {
        seq![s[i]] + remove_sub_from(s, sep, i + 1)
    }
}

/// Where the segment after the last formatting-stop marker starts.
pub open spec fn seg_start(s: Seq<u8>, i: int) -> int
    decreases s.len() - i,
    via seg_start_decreases
{
    match find_sub(s, spec_end_code(), i) {
        None => i,
        Some(k) => seg_start(s, k + 4),
    }
}

#[via_fn]
proof fn seg_start_decreases(s: Seq<u8>, i: int) {
    if i >= 0 {
        lemma_find_sub_range(s, spec_end_code(), i);
    } else {
        lemma_find_sub_neg(s, spec_end_code(), i);
    }
}

proof fn lemma_find_sub_neg(s: Seq<u8>, sep: Seq<u8>, i: int)
    requires
        i < 0,
    ensures
        find_sub(s, sep, i) is None,
{
}

/// The span codes the text mentions, in their fixed order.
pub open spec fn spans_of(seg: Seq<u8>, d: int) -> Seq<u8>
    decreases 5 - d,
{
    if d >= 5 {
        Seq::<u8>::empty()
    } else {
        (if contains_sub(seg, spec_span_code(d)) {
            spec_span_code(d)
        } else {
            Seq::<u8>::empty()
        }) + spans_of(seg, d + 1)
    }
}

/// The decorated form of the text from position `i` on: each segment
/// between stop markers is wrapped in the decoration and a stop, with
/// older copies of the decoration removed from it.
pub open spec fn spec_decorate_from(s: Seq<u8>, which: Seq<u8>, i: int) -> Seq<u8>
    decreases s.len() - i,
    via spec_decorate_from_decreases
{
    match find_sub(s, spec_end_code(), i) {
        None => which + remove_sub_from(s, which, i) + spec_end_code(),
        Some(k) => which + remove_sub_from(s.take(k), which, i) + spec_end_code()
            + spec_decorate_from(s, which, k + 4),
    }
}

#[via_fn]
proof fn spec_decorate_from_decreases(s: Seq<u8>, which: Seq<u8>, i: int) {
    if i >= 0 {
        lemma_find_sub_range(s, spec_end_code(), i);
    } else {
        lemma_find_sub_neg(s, spec_end_code(), i);
    }
}

/// What `decorate` produces: every segment wrapped, then any span codes
/// still open in the final segment re-opened.
pub open spec fn spec_decorate(s: Seq<u8>, which: Seq<u8>) -> Seq<u8> {
    spec_decorate_from(s, which, 0) + spans_of(s.skip(seg_start(s, 0)), 0)
}

/// Find `sep` in `s`, starting at `from`.
fn bytes_find(s: &Vec<u8>, sep: &Vec<u8>, from: usize) -> (r: Option<usize>)
    requires
        from <= s@.len(),
    ensures
        match r {
            Some(k) => Some(k as int) == find_sub(s@, sep@, from as int) && from <= k && k
                + sep@.len() <= s@.len(),
            None => find_sub(s@, sep@, from as int) is None,
        },
{
    if sep.len() > s.len() - from {
        proof {
            lemma_find_none_short(s@, sep@, from as int);
        }
        return None;
    }
    let limit: usize = s.len() - sep.len();
    let mut k: usize = from;
    while k <= limit
        invariant
            from <= k,
            sep@.len() <= s@.len(),
            s@.len() <= usize::MAX,
            limit == s@.len() - sep@.len(),
            k <= limit + 1,
            find_sub(s@, sep@, from as int) == find_sub(s@, sep@, k as int),
        decreases limit + 1 - k,
    {
        let mut m: usize = 0;
        let mut same: bool = true;
        while m < sep.len() && same
            invariant
                k + sep@.len() <= s@.len(),
                s@.len() <= usize::MAX,
                m <= sep@.len(),
                same ==> forall|t: int| 0 <= t < m ==> s@[k + t] == sep@[t],
                !same ==> s@.subrange(k as int, k + sep@.len()) != sep@,
            decreases sep@.len() - m + (if same {
                1int
            } else {
                0int
            }),
        {
            proof {
                assert(k + m < s@.len());
            }
            if s[k + m] != sep[m] {
                proof {
                    assert(s@.subrange(k as int, k + sep@.len())[m as int] == s@[k + m]);
                }
                same = false;
            } else {
                m = m + 1;
            }
        }
        if same {
            proof {
                assert(s@.subrange(k as int, k + sep@.len()) =~= sep@);
                assert(find_sub(s@, sep@, k as int) == Some(k as int));
            }
            return Some(k);
        }
        proof {
            if sep@.len() == 0 {
                assert(s@.subrange(k as int, k as int) =~= sep@);
                assert(false);
            }
        }
        k = k + 1;
    }
    proof {
        assert(find_sub(s@, sep@, k as int) is None);
    }
    None
}

proof fn lemma_find_none_short(s: Seq<u8>, sep: Seq<u8>, i: int)
    requires
        i + sep.len() > s.len(),
        0 <= i,
    ensures
        find_sub(s, sep, i) is None,
{
}

fn end_code() -> (r: Vec<u8>)
    ensures
        r@ == spec_end_code(),
{
    let mut r: Vec<u8> = Vec::new();
    r.push(27);
    r.push(91);
    r.push(48);
    r.push(109);
    proof {
        assert(r@ =~= spec_end_code());
    }
    r
}

fn span_code(d: usize) -> (r: Vec<u8>)
    requires
        d < 5,
    ensures
        r@ == spec_span_code(d as int),
{
    let mut r: Vec<u8> = Vec::new();
    r.push(27);
    r.push(91);
    if d == 0 {
        r.push(49);
    } else if d == 1 || d == 2 {
        r.push(50);
    } else if d == 3 {
        r.push(52);
    } else {
        r.push(55);
    }
    r.push(109);
    proof {
        assert(r@ =~= spec_span_code(d as int));
    }
    r
}

/// Append `s[lo..hi]` with every occurrence of `which` removed.
fn push_removed(out: &mut Vec<u8>, s: &Vec<u8>, lo: usize, hi: usize, which: &Vec<u8>)
    requires
        lo <= hi,
        hi <= s@.len(),
    ensures
        final(out)@ == old(out)@ + remove_sub_from(s@.take(hi as int), which@, lo as int),
{
    let ghost base = out@;
    let ghost capped = s@.take(hi as int);
    let mut p: usize = lo;
    while p < hi
        invariant
            lo <= p <= hi,
            hi <= s@.len(),
            capped == s@.take(hi as int),
            out@ + remove_sub_from(capped, which@, p as int) == base + remove_sub_from(
                capped,
                which@,
                lo as int,
            ),
        decreases hi - p,
    {
        proof {
            assert(capped[p as int] == s@[p as int]);
        }
        // Does an occurrence of `which` start here, inside the capped range?
        let mut skip: bool = false;
        if which.len() > 0 && which.len() <= hi - p {
            let mut m: usize = 0;
            let mut same: bool = true;
            while m < which.len() && same
                invariant
                    p + which@.len() <= hi <= s@.len(),
                    capped == s@.take(hi as int),
                    m <= which@.len(),
                    same ==> forall|t: int| 0 <= t < m ==> capped[p + t] == which@[t],
                    !same ==> capped.subrange(p as int, p + which@.len()) != which@,
                decreases which@.len() - m + (if same {
                    1int
                } else {
                    0int
                }),
            {
                proof {
                    assert(capped[p + m] == s@[p + m]);
                    assert(capped.subrange(p as int, p + which@.len())[m as int] == capped[p + m]);
                }
                if s[p + m] != which[m] {
                    same = false;
                } else {
                    m = m + 1;
                }
            }
            if same {
                proof {
                    assert(capped.subrange(p as int, p + which@.len()) =~= which@);
                }
                skip = true;
            }
        }
        if skip {
            proof {
                assert(remove_sub_from(capped, which@, p as int) == remove_sub_from(
                    capped,
                    which@,
                    p + which@.len(),
                ));
            }
            p = p + which.len();
        } else {
            proof {
                if which@.len() > 0 && p + which@.len() <= hi {
                    assert(capped.subrange(p as int, p + which@.len()) != which@);
                }
                assert(remove_sub_from(capped, which@, p as int) == seq![capped[p as int]]
                    + remove_sub_from(capped, which@, p + 1));
            }
            let ghost before = out@;
            out.push(s[p]);
            proof {
                assert(out@ =~= before + seq![capped[p as int]]);
                assert(out@ + remove_sub_from(capped, which@, p + 1) =~= base + remove_sub_from(
                    capped,
                    which@,
                    lo as int,
                ));
            }
            p = p + 1;
        }
    }
    proof {
        assert(remove_sub_from(capped, which@, hi as int) =~= Seq::<u8>::empty());
        assert(out@ + Seq::<u8>::empty() =~= out@);
    }
}

/// Append `v` to `out`.
fn push_all(out: &mut Vec<u8>, v: &Vec<u8>)
    ensures
        final(out)@ == old(out)@ + v@,
{
    let ghost base = out@;
    let mut i: usize = 0;
    while i < v.len()
        invariant
            i <= v@.len(),
            out@ == base + v@.take(i as int),
        decreases v@.len() - i,
    {
        out.push(v[i]);
        proof {
            assert(out@ =~= base + v@.take(i + 1));
        }
        i = i + 1;
    }
    proof {
        assert(v@.take(v@.len() as int) =~= v@);
    }
}

/// Decorate text with a formatting code: each stop-delimited segment is
/// wrapped in the code and a stop (older copies of the code removed),
/// and any span formatting still open at the end is re-opened.
#[verifier::loop_isolation(false)]
pub fn decorate(input: &Vec<u8>, which: &Vec<u8>) -> (r: Vec<u8>)
    ensures
        r@ == spec_decorate(input@, which@),
{
    let end: Vec<u8> = end_code();
    let n_input: usize = input.len();
    proof {
        assert(input@.len() == n_input);
    }
    let mut out: Vec<u8> = Vec::new();
    let mut i: usize = 0;
    let mut last_start: usize = 0;
    let mut done: bool = false;
    proof {
        assert(out@ =~= Seq::<u8>::empty());
    }
    while !done
        invariant
            i <= input@.len(),
            end@ == spec_end_code(),
            !done ==> out@ + spec_decorate_from(input@, which@, i as int) == spec_decorate_from(
                input@,
                which@,
                0,
            ) && seg_start(input@, 0) == seg_start(input@, i as int),
            done ==> out@ == spec_decorate_from(input@, which@, 0) && last_start == seg_start(
                input@,
                0,
            ) && last_start <= input@.len(),
        decreases input@.len() + 1 - i + (if done {
            0int
        } else {
            1int
        }),
    {
        match bytes_find(input, &end, i) {
            Some(k) => {
                push_all(&mut out, which);
                push_removed(&mut out, input, i, k, which);
                push_all(&mut out, &end);
                proof {
                    assert(seg_start(input@, i as int) == seg_start(input@, (k + 4) as int));
                    assert(out@ + spec_decorate_from(input@, which@, (k + 4) as int)
                        =~= spec_decorate_from(input@, which@, 0) + Seq::<u8>::empty());
                    assert(out@ + spec_decorate_from(input@, which@, (k + 4) as int)
                        =~= spec_decorate_from(input@, which@, 0));
                    assert(k + 4 <= input@.len());
                }
                i = k + 4;
            },
            None => {
                push_all(&mut out, which);
                proof {
                    assert(input@.take(input@.len() as int) =~= input@);
                }
                push_removed(&mut out, input, i, input.len(), which);
                push_all(&mut out, &end);
                last_start = i;
                proof {
                    assert(seg_start(input@, i as int) == i);
                    assert(out@ =~= spec_decorate_from(input@, which@, 0));
                }
                done = true;
            },
        }
    }
    // Re-open span formatting that was active in the last segment.
    let mut tail: Vec<u8> = Vec::new();
    let mut t: usize = last_start;
    while t < input.len()
        invariant
            last_start <= t <= input@.len(),
            tail@ == input@.subrange(last_start as int, t as int),
        decreases input@.len() - t,
    {
        tail.push(input[t]);
        proof {
            assert(tail@ =~= input@.subrange(last_start as int, t + 1));
        }
        t = t + 1;
    }
    proof {
        assert(tail@ =~= input@.skip(last_start as int));
    }
    let mut d: usize = 0;
    let ghost mid = out@;
    while d < 5
        invariant
            d <= 5,
            tail@ == input@.skip(seg_start(input@, 0)),
            mid + spans_of(tail@, 0) == out@ + spans_of(tail@, d as int),
        decreases 5 - d,
    {
        let code: Vec<u8> = span_code(d);
        if bytes_contains(&tail, &code) {
            let ghost before = out@;
            push_all(&mut out, &code);
            proof {
                assert(before + (spec_span_code(d as int) + spans_of(tail@, d + 1)) =~= out@
                    + spans_of(tail@, d + 1));
            }
        } else {
            proof {
                assert(Seq::<u8>::empty() + spans_of(tail@, d + 1) =~= spans_of(tail@, d + 1));
            }
        }
        d = d + 1;
    }
    proof {
        assert(spans_of(tail@, 5) =~= Seq::<u8>::empty());
        assert(out@ + Seq::<u8>::empty() =~= out@);
        assert(out@ =~= spec_decorate(input@, which@));
    }
    out
}

/// What `decorate_range` produces: the middle of the text decorated in
/// place; when the middle has no stop marker, formatting opened before
/// the range is re-opened after it.
pub open spec fn spec_decorate_range(s: Seq<u8>, a: int, b: int, which: Seq<u8>) -> Seq<u8> {
    let middle = s.subrange(a, b);
    let initial = s.take(a);
    s.take(a) + spec_decorate(middle, which) + (if find_sub(middle, spec_end_code(), 0) is None {
        spans_of(initial.skip(seg_start(initial, 0)), 0)
    } else {
        Seq::<u8>::empty()
    }) + s.skip(b)
}

/// Apply a decoration to part of the text, given as a byte range.
#[verifier::loop_isolation(false)]
pub fn decorate_range(input: &Vec<u8>, start: usize, end: usize, which: &Vec<u8>) -> (r: Vec<u8>)
    requires
        start <= end,
        end <= input@.len(),
    ensures
        r@ == spec_decorate_range(input@, start as int, end as int, which@),
{
    let mut middle: Vec<u8> = Vec::new();
    let mut t: usize = start;
    while t < end
        invariant
            start <= t <= end <= input@.len(),
            middle@ == input@.subrange(start as int, t as int),
        decreases end - t,
    {
        middle.push(input[t]);
        proof {
            assert(middle@ =~= input@.subrange(start as int, t + 1));
        }
        t = t + 1;
    }
    let mut out: Vec<u8> = Vec::new();
    let mut p: usize = 0;
    while p < start
        invariant
            p <= start <= input@.len(),
            out@ == input@.take(p as int),
        decreases start - p,
    {
        out.push(input[p]);
        proof {
            assert(out@ =~= input@.take(p + 1));
        }
        p = p + 1;
    }
    let decorated: Vec<u8> = decorate(&middle, which);
    push_all(&mut out, &decorated);
    let endv: Vec<u8> = end_code();
    if bytes_find(&middle, &endv, 0).is_none() {
        // No stop inside the range: formatting opened earlier may span
        // into it and must be restarted after the decoration.
        let mut initial_tail: Vec<u8> = Vec::new();
        let ghost initial = input@.take(start as int);
        let mut ls: usize = 0;
        let mut done: bool = false;
        while !done
            invariant
                ls <= start,
                endv@ == spec_end_code(),
                !done ==> seg_start(initial, 0) == seg_start(initial, ls as int),
                done ==> ls == seg_start(initial, 0) && ls <= start,
            decreases start + 1 - ls + (if done {
                0int
            } else {
                1int
            }),
        {
            // Search within the initial part only.
            let mut k: usize = ls;
            let mut found: bool = false;
            while start >= 4 && k <= start - 4 && !found
                invariant
                    ls <= k,
                    k <= start + 1,
                    find_sub(initial, endv@, ls as int) == find_sub(initial, endv@, k as int),
                    found ==> k + 4 <= start && find_sub(initial, endv@, k as int) == Some(
                        k as int,
                    ),
                decreases start + 1 - k + (if found {
                    0int
                } else {
                    1int
                }),
            {
                proof {
                    assert(initial.len() == start);
                    assert forall|t2: int| 0 <= t2 < 4 implies #[trigger] initial.subrange(
                        k as int,
                        k + 4,
                    )[t2] == input@[k + t2] by {
                        assert(initial[k + t2] == input@[k + t2]);
                    }
                }
                if input[k] == 27 && input[k + 1] == 91 && input[k + 2] == 48 && input[k + 3]
                    == 109 {
                    proof {
                        assert(initial.subrange(k as int, k + 4) =~= spec_end_code());
                    }
                    found = true;
                } else {
                    proof {
                        assert(initial.subrange(k as int, k + 4) !~= spec_end_code()) by {
                            if initial.subrange(k as int, k + 4) =~= spec_end_code() {
                                assert(initial.subrange(k as int, k + 4)[0] == input@[k as int]);
                                assert(initial.subrange(k as int, k + 4)[1] == input@[k + 1]);
                                assert(initial.subrange(k as int, k + 4)[2] == input@[k + 2]);
                                assert(initial.subrange(k as int, k + 4)[3] == input@[k + 3]);
                            }
                        }
                    }
                    k = k + 1;
                }
            }
            if found {
                proof {
                    assert(seg_start(initial, ls as int) == seg_start(initial, (k + 4) as int));
                }
                ls = k + 4;
            } else {
                proof {
                    assert(find_sub(initial, endv@, k as int) is None);
                    assert(seg_start(initial, ls as int) == ls);
                }
                done = true;
            }
        }
        let mut t2: usize = ls;
        while t2 < start
            invariant
                ls <= t2 <= start <= input@.len(),
                initial_tail@ == input@.subrange(ls as int, t2 as int),
            decreases start - t2,
        {
            initial_tail.push(input[t2]);
            proof {
                assert(initial_tail@ =~= input@.subrange(ls as int, t2 + 1));
            }
            t2 = t2 + 1;
        }
        proof {
            assert(initial_tail@ =~= input@.take(start as int).skip(ls as int));
        }
        let mut d: usize = 0;
        let ghost mid2 = out@;
        while d < 5
            invariant
                d <= 5,
                initial_tail@ == input@.take(start as int).skip(
                    seg_start(input@.take(start as int), 0),
                ),
                mid2 + spans_of(initial_tail@, 0) == out@ + spans_of(initial_tail@, d as int),
            decreases 5 - d,
        {
            let code: Vec<u8> = span_code(d);
            if bytes_contains(&initial_tail, &code) {
                let ghost before = out@;
                push_all(&mut out, &code);
                proof {
                    assert(before + (spec_span_code(d as int) + spans_of(initial_tail@, d + 1))
                        =~= out@ + spans_of(initial_tail@, d + 1));
                }
            } else {
                proof {
                    assert(Seq::<u8>::empty() + spans_of(initial_tail@, d + 1) =~= spans_of(
                        initial_tail@,
                        d + 1,
                    ));
                }
            }
            d = d + 1;
        }
        proof {
            assert(spans_of(initial_tail@, 5) =~= Seq::<u8>::empty());
            assert(out@ + Seq::<u8>::empty() =~= out@);
        }
    }
    let mut q: usize = end;
    let ghost before_rest = out@;
    while q < input.len()
        invariant
            end <= q <= input@.len(),
            out@ == before_rest + input@.subrange(end as int, q as int),
        decreases input@.len() - q,
    {
        out.push(input[q]);
        proof {
            assert(out@ =~= before_rest + input@.subrange(end as int, q + 1));
        }
        q = q + 1;
    }
    proof {
        assert(input@.subrange(end as int, input@.len() as int) =~= input@.skip(end as int));
        assert(out@ =~= spec_decorate_range(input@, start as int, end as int, which@));
    }
    out
}

} // verus!
