//! Replacing the spans of directives in a body by their resolved text.
use vstd::prelude::*;
use vstd::string::{StrSliceExecFns, StringExecFns};
use crate::scan::{Directive, Span, ordered_spans};

verus! {

broadcast use vstd::string::group_string_axioms;

/// What stands in place of `d`: its own text if it is escaped, `r` otherwise.
pub open spec fn replacement(d: Span, r: Seq<char>) -> Seq<char> {
    if d.escaped {
        d.text
    } else {
        r
    }
}

/// `b` with the span of each `ds[i]` replaced by `replacement(ds[i], reps[i])`.
#[verifier::opaque]
pub open spec fn spliced(b: Seq<char>, ds: Seq<Span>, reps: Seq<Seq<char>>) -> Seq<char>
    decreases ds.len(),
{
    if ds.len() == 0 {
        b
    } else {
        let k = ds.len() - 1;
        spliced(b.subrange(0, ds[k].start), ds.drop_last(), reps.drop_last()) + replacement(
            ds[k],
            reps[k],
        ) + b.subrange(ds[k].end, b.len() as int)
    }
}

pub open spec fn spans_of(ds: Seq<Directive>) -> Seq<Span> {
    ds.map_values(|d: Directive| d@)
}

pub open spec fn texts_of(rs: Seq<String>) -> Seq<Seq<char>> {
    rs.map_values(|s: String| s@)
}

/// Each escaped directive's text is the text of its span in `b`.
pub open spec fn escaped_texts_match(b: Seq<char>, ds: Seq<Span>) -> bool {
    forall|i: int|
        0 <= i < ds.len() && #[trigger] ds[i].escaped ==> ds[i].text == b.subrange(
            ds[i].start,
            ds[i].end,
        )
}

proof fn lemma_splice_step(b: Seq<char>, sp: Seq<Span>, rp: Seq<Seq<char>>, k: int, bound: int)
    requires
        0 < k <= sp.len(),
        sp.len() == rp.len(),
        ordered_spans(sp, 0, b.len() as int),
        0 <= bound <= b.len(),
        sp[k - 1].end <= bound,
    ensures
        spliced(b.subrange(0, bound), sp.subrange(0, k), rp.subrange(0, k)) == spliced(
            b.subrange(0, sp[k - 1].start),
            sp.subrange(0, k - 1),
            rp.subrange(0, k - 1),
        ) + replacement(sp[k - 1], rp[k - 1]) + b.subrange(sp[k - 1].end, bound),
{
    reveal(spliced);
    let s = sp[k - 1].start;
    let e = sp[k - 1].end;
    let pre = b.subrange(0, bound);
    let dsk = sp.subrange(0, k);
    let rsk = rp.subrange(0, k);
    assert(dsk.drop_last() == sp.subrange(0, k - 1));
    assert(rsk.drop_last() == rp.subrange(0, k - 1));
    assert(dsk[k - 1] == sp[k - 1]);
    assert(rsk[k - 1] == rp[k - 1]);
    assert(pre.subrange(0, s) == b.subrange(0, s));
    assert(pre.subrange(e, pre.len() as int) == b.subrange(e, bound));
}

/// `s` with the characters in `[start, end)` replaced by `rep`.
fn replace_range(s: &str, start: usize, end: usize, rep: &str) -> (r: String)
    requires
        start <= end <= s@.len(),
    ensures
        r@ == s@.subrange(0, start as int) + rep@ + s@.subrange(end as int, s@.len() as int),
{
    let n = s.unicode_len();
    let mut next = s.substring_char(0, start).to_owned();
    next.append(rep);
    next.append(s.substring_char(end, n));
    next
}

/// Replaces the span of each live directive of `ds` in `body` by the text at
/// the same index of `resolved`, working from the last directive to the
/// first so that the spans still to be replaced keep their positions.
/// Escaped directives are left as they stand.
pub fn apply(body: &str, ds: &Vec<Directive>, resolved: &Vec<String>) -> (r: String)
    requires
        ds@.len() == resolved@.len(),
        ordered_spans(spans_of(ds@), 0, body@.len() as int),
        escaped_texts_match(body@, spans_of(ds@)),
    ensures
        r@ == spliced(body@, spans_of(ds@), texts_of(resolved@)),
{
    let ghost b = body@;
    let ghost sp = spans_of(ds@);
    let ghost rp = texts_of(resolved@);
    let mut content: String = body.to_owned();
    let mut k: usize = ds.len();
    let ghost mut tail: Seq<char> = seq![];
    let ghost mut bound: int = b.len() as int;
    proof {
        assert(sp.subrange(0, k as int) == sp);
        assert(rp.subrange(0, k as int) == rp);
        assert(b.subrange(0, bound) == b);
        assert(content@ == b.subrange(0, bound) + tail);
        if k > 0 {
            assert(sp[k - 1].start < sp[k - 1].end);
        }
    }
    while k > 0
        invariant
            k <= ds@.len(),
            ds@.len() == resolved@.len(),
            sp == spans_of(ds@),
            rp == texts_of(resolved@),
            b == body@,
            ordered_spans(sp, 0, b.len() as int),
            escaped_texts_match(b, sp),
            0 <= bound <= b.len(),
            k > 0 ==> sp[k - 1].end <= bound,
            sp.len() == ds@.len(),
            rp.len() == ds@.len(),
            content@ == b.subrange(0, bound) + tail,
            spliced(b, sp, rp) == spliced(b.subrange(0, bound), sp.subrange(0, k as int), rp.subrange(0, k as int)) + tail,
        decreases k,
    {
        let i = k - 1;
        let d = &ds[i];
        let ghost old_bound = bound;
        assert(sp[i as int] == d@);
        assert(sp[i as int].start < sp[i as int].end <= bound);
        if !d.escaped {
            content = replace_range(content.as_str(), d.start, d.end, resolved[i].as_str());
        }
        proof {
            let s = sp[i as int].start;
            let e = sp[i as int].end;
            lemma_splice_step(b, sp, rp, k as int, old_bound);
            assert(rp[i as int] == resolved@[i as int]@);
            if sp[i as int].escaped {
                assert(b.subrange(0, old_bound) + tail =~= b.subrange(0, s) + (b.subrange(s, e) + (
                b.subrange(e, old_bound) + tail)));
            } else {
                assert(content@ =~= b.subrange(0, s) + (resolved@[i as int]@ + (b.subrange(
                    e,
                    old_bound,
                ) + tail)));
            }
            tail = replacement(sp[i as int], rp[i as int]) + b.subrange(e, old_bound) + tail;
            bound = s;
            if i > 0 {
                assert(sp[i - 1].end <= sp[i as int].start);
            }
        }
        k = i;
    }
    proof {
        reveal(spliced);
        assert(sp.subrange(0, 0) == Seq::<Span>::empty());
        assert(b.subrange(0, 0) + tail == tail);
    }
    content
}

} // verus!
