use vstd::prelude::*;

verus! {

/// The contents of an optional string.
pub open spec fn opt_str_view(o: Option<String>) -> Option<Seq<char>> {
    match o {
        Some(s) => Some(s@),
        None => None,
    }
}

/// Equality of optional strings, compared by contents.
pub open spec fn opt_str_eqv(a: Option<String>, b: Option<String>) -> bool {
    match (a, b) {
        (None, None) => true,
        (Some(x), Some(y)) => x@ == y@,
        _ => false,
    }
}

/// Equality of string sequences, compared by contents.
pub open spec fn str_seq_eqv(a: Seq<String>, b: Seq<String>) -> bool {
    a.len() == b.len() && forall|i: int| 0 <= i < a.len() ==> #[trigger] a[i]@ == b[i]@
}

/// The images `f(x)` of the elements `x` of `s` that satisfy `keep`, in order.
pub open spec fn filter_map<T, U>(s: Seq<T>, keep: spec_fn(T) -> bool, f: spec_fn(T) -> U) -> Seq<U>
    decreases s.len(),
{
    if s.len() == 0 {
        Seq::<U>::empty()
    } else {
        filter_map(s.drop_last(), keep, f) + if keep(s.last()) {
            seq![f(s.last())]
        } else {
            Seq::<U>::empty()
        }
    }
}

/// How many elements of `s` satisfy `keep`.
pub open spec fn keep_count<T>(s: Seq<T>, keep: spec_fn(T) -> bool) -> int
    decreases s.len(),
{
    if s.len() == 0 {
        0
    } else {
        keep_count(s.drop_last(), keep) + if keep(s.last()) {
            1int
        } else {
            0int
        }
    }
}

/// The image has exactly one element per kept element.
pub proof fn lemma_filter_map_len<T, U>(s: Seq<T>, keep: spec_fn(T) -> bool, f: spec_fn(T) -> U)
    ensures
        filter_map(s, keep, f).len() == keep_count(s, keep),
        0 <= keep_count(s, keep) <= s.len(),
    decreases s.len(),
{
    if s.len() > 0 {
        lemma_filter_map_len(s.drop_last(), keep, f);
    }
}

/// Extending the scanned prefix by one element extends its image by
/// either nothing or exactly `f(s[i])`.
pub proof fn lemma_filter_map_take_step<T, U>(
    s: Seq<T>,
    keep: spec_fn(T) -> bool,
    f: spec_fn(T) -> U,
    i: int,
)
    requires
        0 <= i < s.len(),
    ensures
        filter_map(s.take(i + 1), keep, f) == filter_map(s.take(i), keep, f) + if keep(s[i]) {
            seq![f(s[i])]
        } else {
            Seq::<U>::empty()
        },
{
    let t = s.take(i + 1);
    assert(t.drop_last() =~= s.take(i));
    assert(t.last() == s[i]);
}

/// The source index of element `k` of the image: the index in `s` of the
/// kept element it is the image of.
pub open spec fn filter_map_src<T>(s: Seq<T>, keep: spec_fn(T) -> bool, k: int) -> int
    decreases s.len(),
{
    if s.len() == 0 {
        0
    } else if keep(s.last()) && k == keep_count(s.drop_last(), keep) {
        s.len() - 1
    } else {
        filter_map_src(s.drop_last(), keep, k)
    }
}

/// Element `k` of the image is `f` of the kept source row at
/// `filter_map_src(s, keep, k)`.
pub proof fn lemma_filter_map_src<T, U>(
    s: Seq<T>,
    keep: spec_fn(T) -> bool,
    f: spec_fn(T) -> U,
    k: int,
)
    requires
        0 <= k < filter_map(s, keep, f).len(),
    ensures
        0 <= filter_map_src(s, keep, k) < s.len(),
        keep(s[filter_map_src(s, keep, k)]),
        filter_map(s, keep, f)[k] == f(s[filter_map_src(s, keep, k)]),
        k <= filter_map_src(s, keep, k),
    decreases s.len(),
{
    lemma_filter_map_len(s, keep, f);
    lemma_filter_map_len(s.drop_last(), keep, f);
    if s.len() > 0 {
        if keep(s.last()) && k == keep_count(s.drop_last(), keep) {
        } else {
            lemma_filter_map_src(s.drop_last(), keep, f, k);
            assert(s.drop_last()[filter_map_src(s, keep, k)] == s[filter_map_src(s, keep, k)]);
        }
    }
}

/// Later image elements come from later source rows.
pub proof fn lemma_filter_map_src_increasing<T, U>(
    s: Seq<T>,
    keep: spec_fn(T) -> bool,
    f: spec_fn(T) -> U,
    k1: int,
    k2: int,
)
    requires
        0 <= k1 < k2 < filter_map(s, keep, f).len(),
    ensures
        filter_map_src(s, keep, k1) < filter_map_src(s, keep, k2),
    decreases s.len(),
{
    lemma_filter_map_len(s, keep, f);
    lemma_filter_map_len(s.drop_last(), keep, f);
    if s.len() > 0 {
        if keep(s.last()) && k2 == keep_count(s.drop_last(), keep) {
            lemma_filter_map_src(s.drop_last(), keep, f, k1);
        } else {
            lemma_filter_map_src_increasing(s.drop_last(), keep, f, k1, k2);
        }
    }
}

/// Where the image of kept source row `i` lands: after the kept rows
/// before it.
pub open spec fn filter_map_pos<T>(s: Seq<T>, keep: spec_fn(T) -> bool, i: int) -> int {
    keep_count(s.take(i), keep)
}

/// A kept source row appears in the image, at its position.
pub proof fn lemma_filter_map_pos<T, U>(
    s: Seq<T>,
    keep: spec_fn(T) -> bool,
    f: spec_fn(T) -> U,
    i: int,
)
    requires
        0 <= i < s.len(),
        keep(s[i]),
    ensures
        0 <= filter_map_pos(s, keep, i) < filter_map(s, keep, f).len(),
        filter_map(s, keep, f)[filter_map_pos(s, keep, i)] == f(s[i]),
    decreases s.len(),
{
    lemma_filter_map_len(s, keep, f);
    lemma_filter_map_len(s.drop_last(), keep, f);
    lemma_filter_map_len(s.take(i), keep, f);
    if i == s.len() - 1 {
        assert(s.take(i) =~= s.drop_last());
    } else {
        assert(s.drop_last()[i] == s[i]);
        assert(s.drop_last().take(i) =~= s.take(i));
        lemma_filter_map_pos(s.drop_last(), keep, f, i);
    }
}

} // verus!
