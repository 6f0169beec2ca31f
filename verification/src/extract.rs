//! Selection of chapter candidates from a book's table of contents: the
//! tree is flattened in pre-order into resource records, the records are
//! classified against configurable ignore patterns, and records that point
//! at the same document through different in-page anchors are collapsed.

use vstd::prelude::*;

use crate::error::Error;
use crate::patterns::{regex_compiles, regex_is_match, regex_match_of, regex_new, regex_pattern_of};
use crate::text::{after_last, after_last_str, cut_at_last, rfind_char};
use regex::Regex;

verus! {

/// One navigation point of a book's table of contents: a labelled target
/// path with an ordering hint and nested child points.
#[derive(Debug)]
pub struct NavNode {
    pub label: String,
    pub path: String,
    pub order: usize,
    pub children: Vec<NavNode>,
}

/// The abstract value of a `ResourceInfo`.
#[verifier::ext_equal]
pub struct ResourceInfoView {
    pub label: Seq<char>,
    pub path: Seq<char>,
    pub order: int,
}

/// Information on an individual resource in an epub.
#[derive(Debug, Clone)]
pub struct ResourceInfo {
    pub label: String,
    pub path: String,
    pub order: usize,
}

impl View for ResourceInfo {
    type V = ResourceInfoView;

    open spec fn view(&self) -> ResourceInfoView {
        ResourceInfoView { label: self.label@, path: self.path@, order: self.order as int }
    }
}

impl DeepView for ResourceInfo {
    type V = ResourceInfoView;

    open spec fn deep_view(&self) -> ResourceInfoView {
        self.view()
    }
}

impl ResourceInfo {
    pub fn new(label: String, path: String, order: usize) -> (r: Self)
        ensures
            r.label == label,
            r.path == path,
            r.order == order,
    {
        Self { label, path, order }
    }

    /// Get the path as a String.
    pub fn path_as_string(&self) -> (r: String)
        ensures
            r@ == self.path@,
    {
        self.path.clone()
    }
}

/// The record a navigation point contributes to the flattened list.
pub open spec fn node_record(n: NavNode) -> ResourceInfoView {
    ResourceInfoView { label: n.label@, path: n.path@, order: n.order as int }
}

/// The pre-order flattening of one navigation point: its own record first,
/// then the flattening of its children in order.
pub open spec fn flatten_node(n: NavNode) -> Seq<ResourceInfoView>
    decreases n,
{
    seq![node_record(n)] + flatten_list(n.children@)
}

/// The pre-order flattening of a list of sibling navigation points.
pub open spec fn flatten_list(ns: Seq<NavNode>) -> Seq<ResourceInfoView>
    decreases ns,
{
    if ns.len() == 0 {
        Seq::empty()
    } else {
        flatten_node(ns[0]) + flatten_list(ns.drop_first())
    }
}

proof fn lemma_flatten_list_snoc(ns: Seq<NavNode>, n: NavNode)
    ensures
        flatten_list(ns.push(n)) == flatten_list(ns) + flatten_node(n),
    decreases ns.len(),
{
    if ns.len() == 0 {
        let p = ns.push(n);
        assert(p[0] == n);
        assert(p.drop_first() =~= Seq::<NavNode>::empty());
        assert(ns =~= Seq::<NavNode>::empty());
        assert(flatten_list(Seq::<NavNode>::empty()) == Seq::<ResourceInfoView>::empty());
        assert(flatten_list(p) == flatten_node(n) + Seq::<ResourceInfoView>::empty());
        assert(flatten_node(n) + Seq::<ResourceInfoView>::empty() =~= Seq::<
            ResourceInfoView,
        >::empty() + flatten_node(n));
    } else {
        assert(ns.push(n).drop_first() =~= ns.drop_first().push(n));
        lemma_flatten_list_snoc(ns.drop_first(), n);
        assert(ns.push(n)[0] == ns[0]);
        assert(flatten_list(ns.push(n)) == flatten_node(ns[0]) + (flatten_list(ns.drop_first())
            + flatten_node(n)));
        assert(flatten_node(ns[0]) + (flatten_list(ns.drop_first()) + flatten_node(n)) =~= (
        flatten_node(ns[0]) + flatten_list(ns.drop_first())) + flatten_node(n));
    }
}

/// A parent's record stands at the front of its flattening, strictly before
/// every record contributed by its descendants (the pre-order property for
/// one subtree).
pub proof fn lemma_flatten_parent_first(n: NavNode)
    ensures
        flatten_node(n).len() >= 1,
        flatten_node(n)[0] == node_record(n),
        flatten_node(n).subrange(1, flatten_node(n).len() as int) == flatten_list(n.children@),
{
    assert(flatten_node(n).subrange(1, flatten_node(n).len() as int) =~= flatten_list(
        n.children@,
    ));
}

/// Sibling subtrees keep their relative order: the flattening of a list of
/// siblings is the concatenation of the flattenings of each subtree, in the
/// original order (the pre-order property across siblings).
pub proof fn lemma_flatten_sibling_order(ns: Seq<NavNode>, i: int)
    requires
        0 <= i < ns.len(),
    ensures
        flatten_list(ns) == flatten_list(ns.subrange(0, i)) + flatten_node(ns[i]) + flatten_list(
            ns.subrange(i + 1, ns.len() as int),
        ),
    decreases i,
{
    if i == 0 {
        assert(ns.subrange(0, 0) =~= Seq::<NavNode>::empty());
        assert(ns.drop_first() =~= ns.subrange(1, ns.len() as int));
        assert(flatten_list(ns.subrange(0, 0)) + flatten_node(ns[0]) =~= flatten_node(ns[0]));
    } else {
        assert(ns.drop_first() =~= ns.subrange(1, ns.len() as int));
        lemma_flatten_sibling_order(ns.drop_first(), i - 1);
        let tail = ns.drop_first();
        assert(tail.subrange(0, i - 1) =~= ns.subrange(1, i));
        assert(tail[i - 1] == ns[i]);
        assert(tail.subrange(i, tail.len() as int) =~= ns.subrange(i + 1, ns.len() as int));
        assert(flatten_node(ns[0]) + (flatten_list(ns.subrange(1, i)) + flatten_node(ns[i])
            + flatten_list(ns.subrange(i + 1, ns.len() as int))) =~= (flatten_node(ns[0])
            + flatten_list(ns.subrange(1, i))) + flatten_node(ns[i]) + flatten_list(
            ns.subrange(i + 1, ns.len() as int),
        ));
        assert(flatten_list(ns.subrange(0, i)) == flatten_node(ns[0]) + flatten_list(
            ns.subrange(1, i),
        )) by {
            let pre = ns.subrange(0, i);
            assert(pre[0] == ns[0]);
            assert(pre.drop_first() =~= ns.subrange(1, i));
        }
    }
}

/// Given a list of NavNodes containing children, return a flat list of
/// (label, path, order) records in pre-order.
pub fn flatten_navpoints(toc: &Vec<NavNode>) -> (r: Vec<ResourceInfo>)
    ensures
        r.deep_view() == flatten_list(toc@),
    decreases toc@,
{
    let mut out: Vec<ResourceInfo> = Vec::new();
    proof {
        assert(out.deep_view() =~= flatten_list(toc@.subrange(0, 0)));
    }
    let mut i: usize = 0;
    while i < toc.len()
        invariant
            0 <= i <= toc@.len(),
            out.deep_view() == flatten_list(toc@.subrange(0, i as int)),
        decreases toc@.len() - i,
    {
        let ghost pre = out.deep_view();
        let item = &toc[i];
        out.push(
            ResourceInfo {
                label: item.label.clone(),
                path: item.path.clone(),
                order: item.order,
            },
        );
        proof {
            assert(decreases_to!(toc@ => toc@[i as int]));
            assert(decreases_to!(toc@[i as int] => toc@[i as int].children));
            assert(decreases_to!(toc@[i as int].children => toc@[i as int].children@));
        }
        let mut sub = flatten_navpoints(&item.children);
        out.append(&mut sub);
        proof {
            lemma_flatten_list_snoc(toc@.subrange(0, i as int), toc@[i as int]);
            assert(toc@.subrange(0, i as int).push(toc@[i as int]) =~= toc@.subrange(
                0,
                i + 1,
            ));
            assert(out.deep_view() =~= pre.push(node_record(toc@[i as int])) + flatten_list(
                toc@[i as int].children@,
            ));
            assert(pre.push(node_record(toc@[i as int])) + flatten_list(
                toc@[i as int].children@,
            ) =~= pre + flatten_node(toc@[i as int]));
        }
        i += 1;
    }
    proof {
        assert(toc@.subrange(0, toc@.len() as int) =~= toc@);
    }
    out
}

/// An owned copy of one record.
fn clone_info(r: &ResourceInfo) -> (c: ResourceInfo)
    ensures
        c@ == r@,
{
    let c = ResourceInfo { label: r.label.clone(), path: r.path.clone(), order: r.order };
    proof {
        assert(c@ =~= r@);
    }
    c
}

/// `s` is ordered by ascending play order.
pub open spec fn sorted_by_order(s: Seq<ResourceInfoView>) -> bool {
    forall|i: int, j: int| 0 <= i < j < s.len() ==> s[i].order <= s[j].order
}

/// `x` inserted behind every element whose order does not exceed `x`'s:
/// the stable insertion step.
pub open spec fn insert_ordered(
    t: Seq<ResourceInfoView>,
    x: ResourceInfoView,
) -> Seq<ResourceInfoView>
    decreases t.len(),
{
    if t.len() == 0 {
        seq![x]
    } else if t.last().order <= x.order {
        t.push(x)
    } else {
        insert_ordered(t.drop_last(), x).push(t.last())
    }
}

/// Stable insertion sort by ascending play order: elements of equal order
/// keep their relative order.
pub open spec fn sort_by_order(s: Seq<ResourceInfoView>) -> Seq<ResourceInfoView>
    decreases s.len(),
{
    if s.len() == 0 {
        s
    } else {
        insert_ordered(sort_by_order(s.drop_last()), s.last())
    }
}

/// The record's path with any `#fragment` suffix cut off: the identity under
/// which records are deduplicated.
pub open spec fn stripped_path(r: ResourceInfoView) -> Seq<char> {
    cut_at_last(r.path, '#')
}

/// The records of `s` whose stripped path occurs neither in `seen` nor
/// earlier in `s`, in order.
pub open spec fn dedup_rec(s: Seq<ResourceInfoView>, seen: Set<Seq<char>>) -> Seq<
    ResourceInfoView,
>
    decreases s.len(),
{
    if s.len() == 0 {
        s
    } else if seen.contains(stripped_path(s[0])) {
        dedup_rec(s.drop_first(), seen)
    } else {
        seq![s[0]] + dedup_rec(s.drop_first(), seen.insert(stripped_path(s[0])))
    }
}

/// The first record of `s` for each distinct stripped path, in order.
pub open spec fn dedup_by_path(s: Seq<ResourceInfoView>) -> Seq<ResourceInfoView> {
    dedup_rec(s, Set::empty())
}

/// What deduplication returns: records sorted stably by play order, then
/// the first record kept for each distinct stripped path.
pub open spec fn make_unique_spec(s: Seq<ResourceInfoView>) -> Seq<ResourceInfoView> {
    dedup_by_path(sort_by_order(s))
}

proof fn lemma_insert_ordered_at(t: Seq<ResourceInfoView>, x: ResourceInfoView, pos: int)
    requires
        0 <= pos <= t.len(),
        forall|k: int| pos <= k < t.len() ==> t[k].order > x.order,
        pos > 0 ==> t[pos - 1].order <= x.order,
    ensures
        insert_ordered(t, x) == t.subrange(0, pos) + seq![x] + t.subrange(pos, t.len() as int),
    decreases t.len(),
{
    if pos == t.len() {
        if t.len() == 0 {
            assert(seq![x] =~= t.subrange(0, pos) + seq![x] + t.subrange(pos, t.len() as int));
        } else {
            assert(t.last().order <= x.order);
            assert(t.push(x) =~= t.subrange(0, pos) + seq![x] + t.subrange(pos, t.len() as int));
        }
    } else {
        assert(t.last().order > x.order);
        let dl = t.drop_last();
        assert(dl =~= t.subrange(0, t.len() - 1));
        lemma_insert_ordered_at(dl, x, pos);
        assert(dl.subrange(0, pos) =~= t.subrange(0, pos));
        assert(dl.subrange(pos, dl.len() as int) =~= t.subrange(pos, t.len() - 1));
        assert((t.subrange(0, pos) + seq![x] + t.subrange(pos, t.len() - 1)).push(t.last()) =~= t
            .subrange(0, pos) + seq![x] + t.subrange(pos, t.len() as int));
    }
}

/// Stable insertion sort by ascending `order`.
fn sort_resources(res: Vec<ResourceInfo>) -> (out: Vec<ResourceInfo>)
    ensures
        out.deep_view() == sort_by_order(res.deep_view()),
{
    let ghost rdv = res.deep_view();
    let mut out: Vec<ResourceInfo> = Vec::new();
    proof {
        assert(rdv.subrange(0, 0) =~= Seq::<ResourceInfoView>::empty());
        assert(out.deep_view() =~= Seq::<ResourceInfoView>::empty());
    }
    let mut i: usize = 0;
    while i < res.len()
        invariant
            0 <= i <= rdv.len(),
            rdv == res.deep_view(),
            rdv.len() == res@.len(),
            out@.len() == i,
            out.deep_view() == sort_by_order(rdv.subrange(0, i as int)),
        decreases rdv.len() - i,
    {
        let x = clone_info(&res[i]);
        proof {
            assert(x@ == rdv[i as int]);
        }
        let ghost t = out.deep_view();
        let mut pos: usize = out.len();
        while pos > 0 && out[pos - 1].order > x.order
            invariant
                0 <= pos <= out@.len(),
                t == out.deep_view(),
                t.len() == out@.len(),
                forall|k: int| pos <= k < t.len() ==> t[k].order > x@.order,
            decreases pos,
        {
            proof {
                assert(out.deep_view()[pos - 1] == out@[pos - 1]@);
            }
            pos -= 1;
        }
        proof {
            if pos > 0 {
                assert(out.deep_view()[pos - 1] == out@[pos - 1]@);
            }
            lemma_insert_ordered_at(t, x@, pos as int);
        }
        out.insert(pos, x);
        proof {
            assert(out.deep_view() =~= t.subrange(0, pos as int) + seq![x@] + t.subrange(
                pos as int,
                t.len() as int,
            ));
            let pre = rdv.subrange(0, i + 1);
            assert(pre.drop_last() =~= rdv.subrange(0, i as int));
            assert(pre.last() == rdv[i as int]);
            assert(out.deep_view() == sort_by_order(pre));
        }
        i += 1;
    }
    proof {
        assert(rdv.subrange(0, rdv.len() as int) =~= rdv);
    }
    out
}

/// The path of `r` with any fragment suffix removed.
fn strip_fragment(path: &str) -> (r: String)
    ensures
        r@ == cut_at_last(path@, '#'),
{
    match rfind_char(path, '#') {
        Some(i) => path.substring_char(0, i).to_owned(),
        None => path.to_owned(),
    }
}

/// Whether some element of `seen` has the same characters as `s`.
fn contains_str(seen: &Vec<String>, s: &String) -> (b: bool)
    ensures
        b == seen.deep_view().contains(s@),
{
    let mut k: usize = 0;
    while k < seen.len()
        invariant
            0 <= k <= seen@.len(),
            forall|j: int| 0 <= j < k ==> seen.deep_view()[j] != s@,
        decreases seen@.len() - k,
    {
        if seen[k].eq(s) {
            proof {
                assert(seen.deep_view()[k as int] == s@);
            }
            return true;
        }
        proof {
            assert(seen.deep_view()[k as int] == seen@[k as int]@);
        }
        k += 1;
    }
    proof {
        assert(forall|j: int| 0 <= j < seen.deep_view().len() ==> seen.deep_view()[j] != s@);
    }
    false
}

/// Collection of matched and ignored resources in an epub.
#[derive(Debug, Clone)]
pub struct ResourceMatches {
    pub candidates: Vec<ResourceInfo>,
    pub ignored: Vec<ResourceInfo>,
}

impl Default for ResourceMatches {
    fn default() -> (r: Self)
        ensures
            r.candidates@.len() == 0,
            r.ignored@.len() == 0,
    {
        Self { candidates: Vec::new(), ignored: Vec::new() }
    }
}

impl ResourceMatches {
    /// Return a list with each fragment-stripped path appearing only once.
    /// Entries can refer to anchors within a document; documents are
    /// deduplicated, keeping the first label in play order as the canonical
    /// label for the document.
    pub fn make_unique(res: Vec<ResourceInfo>) -> (r: Vec<ResourceInfo>)
        ensures
            r.deep_view() == make_unique_spec(res.deep_view()),
    {
        let sorted = sort_resources(res);
        let ghost sdv = sorted.deep_view();
        let mut seen: Vec<String> = Vec::new();
        let mut out: Vec<ResourceInfo> = Vec::new();
        let ghost mut gseen: Set<Seq<char>> = Set::empty();
        proof {
            assert(sdv.subrange(0, sdv.len() as int) =~= sdv);
            assert(out.deep_view() =~= Seq::<ResourceInfoView>::empty());
            assert(Seq::<ResourceInfoView>::empty() + dedup_rec(sdv, gseen) =~= dedup_rec(
                sdv,
                gseen,
            ));
        }
        let mut i: usize = 0;
        while i < sorted.len()
            invariant
                0 <= i <= sdv.len(),
                sdv == sorted.deep_view(),
                sdv.len() == sorted@.len(),
                dedup_by_path(sdv) == out.deep_view() + dedup_rec(
                    sdv.subrange(i as int, sdv.len() as int),
                    gseen,
                ),
                forall|p: Seq<char>| gseen.contains(p) <==> seen.deep_view().contains(p),
            decreases sdv.len() - i,
        {
            let ghost rest = sdv.subrange(i as int, sdv.len() as int);
            proof {
                assert(rest[0] == sdv[i as int]);
                assert(rest.drop_first() =~= sdv.subrange(i + 1, sdv.len() as int));
                assert(sorted@[i as int]@ == sdv[i as int]);
            }
            let stripped = strip_fragment(sorted[i].path.as_str());
            proof {
                assert(stripped@ == stripped_path(sdv[i as int]));
            }
            if contains_str(&seen, &stripped) {
                proof {
                    assert(gseen.contains(stripped_path(sdv[i as int])));
                    assert(dedup_rec(rest, gseen) == dedup_rec(rest.drop_first(), gseen));
                }
            } else {
                proof {
                    assert(!gseen.contains(stripped_path(sdv[i as int])));
                }
                let kept = clone_info(&sorted[i]);
                let ghost pre = out.deep_view();
                let ghost dv0 = seen.deep_view();
                out.push(kept);
                seen.push(stripped);
                proof {
                    let sp = stripped_path(sdv[i as int]);
                    let g1 = gseen.insert(sp);
                    assert(dedup_rec(rest, gseen) == seq![rest[0]] + dedup_rec(
                        rest.drop_first(),
                        g1,
                    ));
                    assert(out.deep_view() =~= pre.push(sdv[i as int]));
                    assert(pre + (seq![rest[0]] + dedup_rec(rest.drop_first(), g1))
                        =~= pre.push(sdv[i as int]) + dedup_rec(rest.drop_first(), g1));
                    let dv1 = seen.deep_view();
                    assert(seen@[seen@.len() - 1]@ == sp);
                    assert forall|j: int| 0 <= j < dv0.len() implies dv1[j] == dv0[j] by {}
                    assert(dv1 =~= dv0.push(sp));
                    gseen = g1;
                    assert forall|p: Seq<char>|
                        gseen.contains(p) <==> seen.deep_view().contains(p) by {
                        if gseen.contains(p) {
                            if p == sp {
                                assert(dv1[dv1.len() - 1] == p);
                            } else {
                                assert(dv0.contains(p));
                                let w = choose|w: int| 0 <= w < dv0.len() && dv0[w] == p;
                                assert(dv1[w] == p);
                            }
                        }
                        if dv1.contains(p) {
                            let w = choose|w: int| 0 <= w < dv1.len() && dv1[w] == p;
                            if w < dv1.len() - 1 {
                                assert(dv0[w] == p);
                                assert(dv0.contains(p));
                            }
                        }
                    }
                }
            }
            i += 1;
        }
        proof {
            assert(sdv.subrange(sdv.len() as int, sdv.len() as int) =~= Seq::<
                ResourceInfoView,
            >::empty());
            assert(out.deep_view() + Seq::<ResourceInfoView>::empty() =~= out.deep_view());
        }
        out
    }

    /// Convenience function for calling `make_unique` on `self.candidates`.
    pub fn unique_candidates(&self) -> (r: Vec<ResourceInfo>)
        ensures
            r.deep_view() == make_unique_spec(self.candidates.deep_view()),
    {
        let mut copy: Vec<ResourceInfo> = Vec::new();
        let mut i: usize = 0;
        while i < self.candidates.len()
            invariant
                0 <= i <= self.candidates@.len(),
                copy@.len() == i,
                copy.deep_view() == self.candidates.deep_view().subrange(0, i as int),
            decreases self.candidates@.len() - i,
        {
            let ghost cdv0 = copy.deep_view();
            copy.push(clone_info(&self.candidates[i]));
            proof {
                let cdv1 = copy.deep_view();
                assert(copy@.len() == i + 1);
                assert(self.candidates.deep_view()[i as int] == self.candidates@[i as int]@);
                assert(cdv1[i as int] == copy@[i as int]@);
                assert forall|j: int| 0 <= j < cdv0.len() implies cdv1[j] == cdv0[j] by {}
                assert(cdv1 =~= self.candidates.deep_view().subrange(0, i + 1));
            }
            i += 1;
        }
        proof {
            assert(self.candidates.deep_view().subrange(
                0,
                self.candidates@.len() as int,
            ) =~= self.candidates.deep_view());
        }
        Self::make_unique(copy)
    }

    /// Return a new `ResourceMatches` where both `candidates` and `ignored`
    /// are unique.
    pub fn into_unique(self) -> (r: Self)
        ensures
            r.candidates.deep_view() == make_unique_spec(self.candidates.deep_view()),
            r.ignored.deep_view() == make_unique_spec(self.ignored.deep_view()),
    {
        Self {
            candidates: Self::make_unique(self.candidates),
            ignored: Self::make_unique(self.ignored),
        }
    }
}

proof fn lemma_insert_ordered_contains(
    t: Seq<ResourceInfoView>,
    x: ResourceInfoView,
    y: ResourceInfoView,
)
    ensures
        insert_ordered(t, x).contains(y) <==> t.contains(y) || y == x,
    decreases t.len(),
{
    let r = insert_ordered(t, x);
    if t.len() == 0 {
        assert(r =~= seq![x]);
        if r.contains(y) {
            let w = choose|w: int| 0 <= w < r.len() && r[w] == y;
            assert(y == x);
        }
        if y == x {
            assert(r[0] == y);
        }
    } else if t.last().order <= x.order {
        assert(r == t.push(x));
        if r.contains(y) {
            let w = choose|w: int| 0 <= w < r.len() && r[w] == y;
            if w < t.len() {
                assert(t[w] == y);
            }
        }
        if t.contains(y) {
            let w = choose|w: int| 0 <= w < t.len() && t[w] == y;
            assert(r[w] == y);
        }
        if y == x {
            assert(r[t.len() as int] == y);
        }
    } else {
        let dl = t.drop_last();
        lemma_insert_ordered_contains(dl, x, y);
        let q = insert_ordered(dl, x);
        assert(r == q.push(t.last()));
        if r.contains(y) {
            let w = choose|w: int| 0 <= w < r.len() && r[w] == y;
            if w < q.len() {
                assert(q[w] == y);
            } else {
                assert(y == t.last());
                assert(t[t.len() - 1] == y);
            }
        }
        if t.contains(y) {
            let w = choose|w: int| 0 <= w < t.len() && t[w] == y;
            if w < t.len() - 1 {
                assert(dl[w] == y);
                let v = choose|v: int| 0 <= v < q.len() && q[v] == y;
                assert(r[v] == y);
            } else {
                assert(r[r.len() - 1] == y);
            }
        }
        if y == x {
            let v = choose|v: int| 0 <= v < q.len() && q[v] == y;
            assert(r[v] == y);
        }
        if q.contains(y) {
            let v = choose|v: int| 0 <= v < q.len() && q[v] == y;
            assert(r[v] == y);
        }
    }
}

proof fn lemma_insert_ordered_sorted(t: Seq<ResourceInfoView>, x: ResourceInfoView)
    requires
        sorted_by_order(t),
    ensures
        sorted_by_order(insert_ordered(t, x)),
    decreases t.len(),
{
    let r = insert_ordered(t, x);
    if t.len() == 0 {
    } else if t.last().order <= x.order {
        assert(r == t.push(x));
        assert forall|i: int, j: int| 0 <= i < j < r.len() implies r[i].order <= r[j].order by {
            if j == r.len() - 1 {
                if i < t.len() - 1 {
                    assert(t[i].order <= t[t.len() - 1].order);
                }
            }
        }
    } else {
        let dl = t.drop_last();
        assert(sorted_by_order(dl)) by {
            assert forall|i: int, j: int|
                0 <= i < j < dl.len() implies dl[i].order <= dl[j].order by {
                assert(t[i].order <= t[j].order);
            }
        }
        lemma_insert_ordered_sorted(dl, x);
        let q = insert_ordered(dl, x);
        assert(r == q.push(t.last()));
        assert forall|i: int, j: int| 0 <= i < j < r.len() implies r[i].order <= r[j].order by {
            if j == r.len() - 1 {
                assert(q.contains(q[i]));
                lemma_insert_ordered_contains(dl, x, q[i]);
                if q[i] == x {
                    assert(r[i].order <= r[j].order);
                } else {
                    let w = choose|w: int| 0 <= w < dl.len() && dl[w] == q[i];
                    assert(t[w].order <= t[t.len() - 1].order);
                }
            }
        }
    }
}

/// Sorting by play order sorts: the result is ordered, and holds the same
/// records as the input.
pub proof fn lemma_sort_sorted(s: Seq<ResourceInfoView>)
    ensures
        sorted_by_order(sort_by_order(s)),
        forall|y: ResourceInfoView| sort_by_order(s).contains(y) <==> s.contains(y),
        sort_by_order(s).len() == s.len(),
    decreases s.len(),
{
    if s.len() > 0 {
        let dl = s.drop_last();
        lemma_sort_sorted(dl);
        lemma_insert_ordered_sorted(sort_by_order(dl), s.last());
        assert(insert_ordered(sort_by_order(dl), s.last()).len() == sort_by_order(dl).len()
            + 1) by {
            lemma_insert_ordered_len(sort_by_order(dl), s.last());
        }
        assert forall|y: ResourceInfoView|
            sort_by_order(s).contains(y) <==> s.contains(y) by {
            lemma_insert_ordered_contains(sort_by_order(dl), s.last(), y);
            if dl.contains(y) {
                let w = choose|w: int| 0 <= w < dl.len() && dl[w] == y;
                assert(s[w] == y);
            }
            if s.contains(y) {
                let w = choose|w: int| 0 <= w < s.len() && s[w] == y;
                if w < s.len() - 1 {
                    assert(dl[w] == y);
                }
            }
        }
    }
}

proof fn lemma_insert_ordered_len(t: Seq<ResourceInfoView>, x: ResourceInfoView)
    ensures
        insert_ordered(t, x).len() == t.len() + 1,
    decreases t.len(),
{
    if t.len() > 0 && t.last().order > x.order {
        lemma_insert_ordered_len(t.drop_last(), x);
    }
}

/// A stable sort leaves an already ordered sequence unchanged.
pub proof fn lemma_sort_of_sorted(s: Seq<ResourceInfoView>)
    requires
        sorted_by_order(s),
    ensures
        sort_by_order(s) == s,
    decreases s.len(),
{
    if s.len() > 0 {
        let dl = s.drop_last();
        assert(sorted_by_order(dl)) by {
            assert forall|i: int, j: int|
                0 <= i < j < dl.len() implies dl[i].order <= dl[j].order by {
                assert(s[i].order <= s[j].order);
            }
        }
        lemma_sort_of_sorted(dl);
        if dl.len() == 0 {
            assert(insert_ordered(dl, s.last()) =~= s);
        } else {
            assert(dl.last() == s[s.len() - 2]);
            assert(dl.last().order <= s.last().order);
            assert(dl.push(s.last()) =~= s);
        }
    }
}

proof fn lemma_dedup_sorted(s: Seq<ResourceInfoView>, seen: Set<Seq<char>>)
    requires
        sorted_by_order(s),
    ensures
        sorted_by_order(dedup_rec(s, seen)),
        forall|y: ResourceInfoView| dedup_rec(s, seen).contains(y) ==> s.contains(y),
    decreases s.len(),
{
    if s.len() > 0 {
        let t = s.drop_first();
        assert(sorted_by_order(t)) by {
            assert forall|i: int, j: int|
                0 <= i < j < t.len() implies t[i].order <= t[j].order by {
                assert(s[i + 1].order <= s[j + 1].order);
            }
        }
        let d = dedup_rec(s, seen);
        if seen.contains(stripped_path(s[0])) {
            lemma_dedup_sorted(t, seen);
            assert(d == dedup_rec(t, seen));
            assert forall|y: ResourceInfoView| d.contains(y) implies s.contains(y) by {
                assert(t.contains(y));
                let w = choose|w: int| 0 <= w < t.len() && t[w] == y;
                assert(s[w + 1] == y);
            }
        } else {
            let g1 = seen.insert(stripped_path(s[0]));
            lemma_dedup_sorted(t, g1);
            let dt = dedup_rec(t, g1);
            assert(d == seq![s[0]] + dt);
            assert forall|y: ResourceInfoView| d.contains(y) implies s.contains(y) by {
                lemma_cons_contains(s[0], dt, y);
                if y == s[0] {
                    assert(s[0] == y);
                    assert(s.contains(y));
                } else {
                    assert(dt.contains(y));
                    assert(t.contains(y));
                    let w = choose|w: int| 0 <= w < t.len() && t[w] == y;
                    assert(s[w + 1] == y);
                }
            }
            assert forall|i: int, j: int|
                0 <= i < j < d.len() implies d[i].order <= d[j].order by {
                if i == 0 {
                    assert(dt[j - 1] == d[j]);
                    assert(dt.contains(dt[j - 1]));
                    assert(t.contains(d[j]));
                    let w = choose|w: int| 0 <= w < t.len() && t[w] == d[j];
                    assert(s[0].order <= s[w + 1].order);
                } else {
                    assert(dt[i - 1] == d[i]);
                    assert(dt[j - 1] == d[j]);
                }
            }
        }
    }
}

/// The stripped paths of a deduplicated sequence are distinct, and none of
/// them was in `seen`.
proof fn lemma_dedup_distinct(s: Seq<ResourceInfoView>, seen: Set<Seq<char>>)
    ensures
        forall|i: int, j: int|
            0 <= i < j < dedup_rec(s, seen).len() ==> stripped_path(dedup_rec(s, seen)[i])
                != stripped_path(dedup_rec(s, seen)[j]),
        forall|i: int|
            0 <= i < dedup_rec(s, seen).len() ==> !seen.contains(
                stripped_path(#[trigger] dedup_rec(s, seen)[i]),
            ),
    decreases s.len(),
{
    if s.len() > 0 {
        let t = s.drop_first();
        let d = dedup_rec(s, seen);
        if seen.contains(stripped_path(s[0])) {
            lemma_dedup_distinct(t, seen);
            assert(d == dedup_rec(t, seen));
            assert forall|i: int, j: int|
                0 <= i < j < d.len() implies stripped_path(d[i]) != stripped_path(d[j]) by {
                assert(d[i] == dedup_rec(t, seen)[i]);
                assert(d[j] == dedup_rec(t, seen)[j]);
            }
            assert forall|i: int|
                0 <= i < d.len() implies !seen.contains(stripped_path(#[trigger] d[i])) by {
                assert(d[i] == dedup_rec(t, seen)[i]);
            }
        } else {
            let g1 = seen.insert(stripped_path(s[0]));
            lemma_dedup_distinct(t, g1);
            let dt = dedup_rec(t, g1);
            assert(d == seq![s[0]] + dt);
            assert forall|i: int, j: int|
                0 <= i < j < d.len() implies stripped_path(d[i]) != stripped_path(d[j]) by {
                if i == 0 {
                    assert(dt[j - 1] == d[j]);
                    assert(!g1.contains(stripped_path(dt[j - 1])));
                } else {
                    assert(dt[i - 1] == d[i]);
                    assert(dt[j - 1] == d[j]);
                }
            }
            assert forall|i: int|
                0 <= i < d.len() implies !seen.contains(stripped_path(#[trigger] d[i])) by {
                if i > 0 {
                    assert(dt[i - 1] == d[i]);
                    assert(!g1.contains(stripped_path(dt[i - 1])));
                }
            }
        }
    }
}

/// Deduplicating a sequence whose stripped paths are already distinct and
/// disjoint from `seen` changes nothing.
proof fn lemma_dedup_of_distinct(d: Seq<ResourceInfoView>, seen: Set<Seq<char>>)
    requires
        forall|i: int, j: int|
            0 <= i < j < d.len() ==> stripped_path(d[i]) != stripped_path(d[j]),
        forall|i: int| 0 <= i < d.len() ==> !seen.contains(stripped_path(#[trigger] d[i])),
    ensures
        dedup_rec(d, seen) == d,
    decreases d.len(),
{
    if d.len() > 0 {
        let t = d.drop_first();
        let g1 = seen.insert(stripped_path(d[0]));
        assert(!seen.contains(stripped_path(d[0])));
        assert forall|i: int|
            0 <= i < t.len() implies !g1.contains(stripped_path(#[trigger] t[i])) by {
            assert(t[i] == d[i + 1]);
            assert(stripped_path(d[0]) != stripped_path(d[i + 1]));
        }
        assert forall|i: int, j: int|
            0 <= i < j < t.len() implies stripped_path(t[i]) != stripped_path(t[j]) by {
            assert(t[i] == d[i + 1]);
            assert(t[j] == d[j + 1]);
        }
        lemma_dedup_of_distinct(t, g1);
        assert(dedup_rec(d, seen) == seq![d[0]] + t);
        assert(seq![d[0]] + t =~= d);
    }
}

/// Deduplication is a fixed point: running it on its own output changes
/// nothing.
pub proof fn lemma_make_unique_idempotent(s: Seq<ResourceInfoView>)
    ensures
        make_unique_spec(make_unique_spec(s)) == make_unique_spec(s),
{
    let ss = sort_by_order(s);
    let m = make_unique_spec(s);
    lemma_sort_sorted(s);
    lemma_dedup_sorted(ss, Set::empty());
    assert(sorted_by_order(m));
    lemma_sort_of_sorted(m);
    lemma_dedup_distinct(ss, Set::empty());
    lemma_dedup_of_distinct(m, Set::empty());
}

/// The set of stripped paths that occur in `s`.
pub open spec fn stripped_set(s: Seq<ResourceInfoView>) -> Set<Seq<char>> {
    Set::new(|p: Seq<char>| exists|i: int| 0 <= i < s.len() && stripped_path(#[trigger] s[i]) == p)
}

proof fn lemma_dedup_strips(s: Seq<ResourceInfoView>, seen: Set<Seq<char>>)
    ensures
        stripped_set(dedup_rec(s, seen)) == stripped_set(s).difference(seen),
    decreases s.len(),
{
    let d = dedup_rec(s, seen);
    if s.len() == 0 {
        assert(stripped_set(d) =~= stripped_set(s).difference(seen));
    } else {
        let t = s.drop_first();
        let sp = stripped_path(s[0]);
        assert forall|p: Seq<char>|
            stripped_set(s).contains(p) <==> p == sp || stripped_set(t).contains(p) by {
            if stripped_set(s).contains(p) {
                let w = choose|w: int| 0 <= w < s.len() && stripped_path(s[w]) == p;
                if w > 0 {
                    assert(stripped_path(t[w - 1]) == p);
                }
            }
            if p == sp {
                assert(stripped_path(s[0]) == p);
            }
            if stripped_set(t).contains(p) {
                let w = choose|w: int| 0 <= w < t.len() && stripped_path(t[w]) == p;
                assert(stripped_path(s[w + 1]) == p);
            }
        }
        if seen.contains(sp) {
            lemma_dedup_strips(t, seen);
            assert(stripped_set(d) =~= stripped_set(s).difference(seen));
        } else {
            let g1 = seen.insert(sp);
            lemma_dedup_strips(t, g1);
            let dt = dedup_rec(t, g1);
            assert(d == seq![s[0]] + dt);
            assert forall|p: Seq<char>|
                stripped_set(d).contains(p) <==> p == sp || stripped_set(dt).contains(p) by {
                if stripped_set(d).contains(p) {
                    let w = choose|w: int| 0 <= w < d.len() && stripped_path(d[w]) == p;
                    if w > 0 {
                        assert(stripped_path(dt[w - 1]) == p);
                    }
                }
                if p == sp {
                    assert(stripped_path(d[0]) == p);
                }
                if stripped_set(dt).contains(p) {
                    let w = choose|w: int| 0 <= w < dt.len() && stripped_path(dt[w]) == p;
                    assert(stripped_path(d[w + 1]) == p);
                }
            }
            assert(stripped_set(d) =~= stripped_set(s).difference(seen));
        }
    }
}

/// Deduplication keeps exactly the stripped paths of its input: the set of
/// surviving fragment-stripped paths equals the set of distinct stripped
/// paths in the input.
pub proof fn lemma_make_unique_strips(s: Seq<ResourceInfoView>)
    ensures
        stripped_set(make_unique_spec(s)) == stripped_set(s),
{
    let ss = sort_by_order(s);
    lemma_sort_sorted(s);
    assert forall|p: Seq<char>|
        stripped_set(ss).contains(p) <==> stripped_set(s).contains(p) by {
        if stripped_set(ss).contains(p) {
            let w = choose|w: int| 0 <= w < ss.len() && stripped_path(ss[w]) == p;
            assert(ss.contains(ss[w]));
            assert(s.contains(ss[w]));
            let v = choose|v: int| 0 <= v < s.len() && s[v] == ss[w];
            assert(stripped_path(s[v]) == p);
        }
        if stripped_set(s).contains(p) {
            let w = choose|w: int| 0 <= w < s.len() && stripped_path(s[w]) == p;
            assert(s.contains(s[w]));
            assert(ss.contains(s[w]));
            let v = choose|v: int| 0 <= v < ss.len() && ss[v] == s[w];
            assert(stripped_path(ss[v]) == p);
        }
    }
    assert(stripped_set(ss) =~= stripped_set(s));
    lemma_dedup_strips(ss, Set::empty());
    assert(stripped_set(ss).difference(Set::empty()) =~= stripped_set(ss));
}

/// Each surviving record is the first record of the sorted sequence that
/// carries its stripped path: with a stable sort by ascending order, the
/// kept label is the one from the lowest-order occurrence.
pub proof fn lemma_dedup_keeps_first(s: Seq<ResourceInfoView>, seen: Set<Seq<char>>)
    ensures
        forall|k: int|
            0 <= k < dedup_rec(s, seen).len() ==> exists|i: int|
                0 <= i < s.len() && s[i] == #[trigger] dedup_rec(s, seen)[k] && forall|i2: int|
                    0 <= i2 < i ==> stripped_path(s[i2]) != stripped_path(s[i]),
    decreases s.len(),
{
    lemma_dedup_distinct(s, seen);
    if s.len() > 0 {
        let t = s.drop_first();
        let d = dedup_rec(s, seen);
        let sp = stripped_path(s[0]);
        if seen.contains(sp) {
            lemma_dedup_keeps_first(t, seen);
            lemma_dedup_distinct(t, seen);
            assert forall|k: int|
                0 <= k < d.len() implies exists|i: int|
                    0 <= i < s.len() && s[i] == #[trigger] d[k] && forall|i2: int|
                        0 <= i2 < i ==> stripped_path(s[i2]) != stripped_path(s[i]) by {
                let dt = dedup_rec(t, seen);
                assert(dt[k] == d[k]);
                let i = choose|i: int|
                    0 <= i < t.len() && t[i] == dt[k] && forall|i2: int|
                        0 <= i2 < i ==> stripped_path(t[i2]) != stripped_path(t[i]);
                assert(!seen.contains(stripped_path(dt[k])));
                assert(stripped_path(s[0]) != stripped_path(t[i]));
                assert(s[i + 1] == d[k]);
                assert forall|i2: int|
                    0 <= i2 < i + 1 implies stripped_path(#[trigger] s[i2]) != stripped_path(
                    s[i + 1],
                ) by {
                    if i2 > 0 {
                        assert(t[i2 - 1] == s[i2]);
                        assert(stripped_path(t[i2 - 1]) != stripped_path(t[i]));
                    }
                }
            }
        } else {
            let g1 = seen.insert(sp);
            lemma_dedup_keeps_first(t, g1);
            lemma_dedup_distinct(t, g1);
            let dt = dedup_rec(t, g1);
            assert(d == seq![s[0]] + dt);
            assert forall|k: int|
                0 <= k < d.len() implies exists|i: int|
                    0 <= i < s.len() && s[i] == #[trigger] d[k] && forall|i2: int|
                        0 <= i2 < i ==> stripped_path(s[i2]) != stripped_path(s[i]) by {
                if k == 0 {
                    assert(s[0] == d[0]);
                    assert(0 <= 0 < s.len() && s[0] == d[0] && forall|i2: int|
                        0 <= i2 < 0 ==> stripped_path(#[trigger] s[i2]) != stripped_path(s[0]));
                } else {
                    assert(dt[k - 1] == d[k]);
                    let i = choose|i: int|
                        0 <= i < t.len() && t[i] == dt[k - 1] && forall|i2: int|
                            0 <= i2 < i ==> stripped_path(t[i2]) != stripped_path(t[i]);
                    assert(!g1.contains(stripped_path(dt[k - 1])));
                    assert(stripped_path(s[0]) != stripped_path(t[i]));
                    assert(s[i + 1] == d[k]);
                    assert forall|i2: int|
                        0 <= i2 < i + 1 implies stripped_path(#[trigger] s[i2]) != stripped_path(
                            s[i + 1],
                        ) by {
                        if i2 > 0 {
                            assert(t[i2 - 1] == s[i2]);
                            assert(stripped_path(t[i2 - 1]) != stripped_path(t[i]));
                        }
                    }
                }
            }
        }
    }
}


/// Each record that deduplication keeps is the first record, in the
/// stably sorted sequence, that carries its stripped path: the kept label
/// is the one from the lowest-order occurrence, earliest on ties.
pub proof fn lemma_make_unique_keeps_first(s: Seq<ResourceInfoView>)
    ensures
        forall|k: int|
            0 <= k < make_unique_spec(s).len() ==> exists|i: int|
                0 <= i < sort_by_order(s).len() && sort_by_order(s)[i]
                    == #[trigger] make_unique_spec(s)[k] && forall|i2: int|
                    0 <= i2 < i ==> stripped_path(sort_by_order(s)[i2]) != stripped_path(
                        sort_by_order(s)[i],
                    ),
{
    lemma_dedup_keeps_first(sort_by_order(s), Set::empty());
}

/// The alternation of `pats`: the patterns joined with `|`.
pub open spec fn join_alternation(pats: Seq<Seq<char>>) -> Seq<char>
    decreases pats.len(),
{
    if pats.len() == 0 {
        Seq::empty()
    } else if pats.len() == 1 {
        pats[0]
    } else {
        join_alternation(pats.drop_last()) + seq!['|'] + pats.last()
    }
}

/// Joins the configured patterns into one alternation.
fn join_patterns(pats: &Vec<String>) -> (r: String)
    ensures
        r@ == join_alternation(pats.deep_view()),
{
    let ghost dv = pats.deep_view();
    let mut out = String::new();
    proof {
        reveal_strlit("|");
        assert(dv.subrange(0, 0) =~= Seq::<Seq<char>>::empty());
    }
    let mut i: usize = 0;
    while i < pats.len()
        invariant
            0 <= i <= dv.len(),
            dv == pats.deep_view(),
            dv.len() == pats@.len(),
            out@ == join_alternation(dv.subrange(0, i as int)),
        decreases dv.len() - i,
    {
        proof {
            assert(dv[i as int] == pats@[i as int]@);
        }
        if i > 0 {
            out.append("|");
        }
        out.append(pats[i].as_str());
        proof {
            reveal_strlit("|");
            assert(("|")@ =~= seq!['|']);
            let pre = dv.subrange(0, i + 1);
            assert(pre.last() == dv[i as int]);
            assert(pre.drop_last() =~= dv.subrange(0, i as int));
            if i == 0 {
                assert(out@ =~= dv[0]);
                assert(join_alternation(pre) == pre[0]);
            } else {
                assert(join_alternation(pre) == join_alternation(dv.subrange(0, i as int))
                    + seq!['|'] + dv[i as int]);
                assert(out@ =~= join_alternation(dv.subrange(0, i as int)) + seq!['|'] + dv[
                    i as int
                ]);
            }
        }
        i += 1;
    }
    proof {
        assert(dv.subrange(0, dv.len() as int) =~= dv);
    }
    out
}

/// A record is ignored when the label filter matches its label, or when the
/// resource filter matches the final segment of its path (fragment
/// included); a record with an empty final segment is never matched by the
/// resource filter.  The final segment is everything after the last `/`:
/// unlike a filesystem path lookup, a path ending in `/` has an empty
/// segment, and `\` is not a separator.
pub open spec fn should_ignore_spec(
    lbl_pat: Seq<char>,
    res_pat: Seq<char>,
    r: ResourceInfoView,
) -> bool {
    regex_match_of(lbl_pat, r.label) || (after_last(r.path, '/').len() > 0 && regex_match_of(
        res_pat,
        after_last(r.path, '/'),
    ))
}

/// The records of `s` that the ignore filters do not match, in order.
pub open spec fn candidates_of(s: Seq<ResourceInfoView>, lbl_pat: Seq<char>, res_pat: Seq<char>) -> Seq<
    ResourceInfoView,
>
    decreases s.len(),
{
    if s.len() == 0 {
        s
    } else if should_ignore_spec(lbl_pat, res_pat, s[0]) {
        candidates_of(s.drop_first(), lbl_pat, res_pat)
    } else {
        seq![s[0]] + candidates_of(s.drop_first(), lbl_pat, res_pat)
    }
}

/// The records of `s` that an ignore filter matches, in order.
pub open spec fn ignored_of(s: Seq<ResourceInfoView>, lbl_pat: Seq<char>, res_pat: Seq<char>) -> Seq<
    ResourceInfoView,
>
    decreases s.len(),
{
    if s.len() == 0 {
        s
    } else if should_ignore_spec(lbl_pat, res_pat, s[0]) {
        seq![s[0]] + ignored_of(s.drop_first(), lbl_pat, res_pat)
    } else {
        ignored_of(s.drop_first(), lbl_pat, res_pat)
    }
}

proof fn lemma_cons_contains(h: ResourceInfoView, t: Seq<ResourceInfoView>, x: ResourceInfoView)
    ensures
        (seq![h] + t).contains(x) <==> x == h || t.contains(x),
{
    let c = seq![h] + t;
    if c.contains(x) {
        let w = choose|w: int| 0 <= w < c.len() && c[w] == x;
        if w > 0 {
            assert(t[w - 1] == x);
        }
    }
    if x == h {
        assert(c[0] == x);
    }
    if t.contains(x) {
        let w = choose|w: int| 0 <= w < t.len() && t[w] == x;
        assert(c[w + 1] == x);
    }
}

/// Classification is complete and deterministic: every record lands in
/// exactly one of the two lists, so their lengths sum to the input's, and
/// membership is decided by the ignore filters alone.
pub proof fn lemma_classification_complete(
    s: Seq<ResourceInfoView>,
    lbl_pat: Seq<char>,
    res_pat: Seq<char>,
)
    ensures
        candidates_of(s, lbl_pat, res_pat).len() + ignored_of(s, lbl_pat, res_pat).len()
            == s.len(),
        forall|x: ResourceInfoView|
            candidates_of(s, lbl_pat, res_pat).contains(x) <==> s.contains(x)
                && !should_ignore_spec(lbl_pat, res_pat, x),
        forall|x: ResourceInfoView|
            ignored_of(s, lbl_pat, res_pat).contains(x) <==> s.contains(x) && should_ignore_spec(
                lbl_pat,
                res_pat,
                x,
            ),
    decreases s.len(),
{
    if s.len() > 0 {
        let t = s.drop_first();
        lemma_classification_complete(t, lbl_pat, res_pat);
    }
    assert forall|x: ResourceInfoView|
        candidates_of(s, lbl_pat, res_pat).contains(x) <==> s.contains(x)
            && !should_ignore_spec(lbl_pat, res_pat, x) by {
        lemma_classified_elem(s, lbl_pat, res_pat, x);
    }
    assert forall|x: ResourceInfoView|
        ignored_of(s, lbl_pat, res_pat).contains(x) <==> s.contains(x) && should_ignore_spec(
            lbl_pat,
            res_pat,
            x,
        ) by {
        lemma_classified_elem(s, lbl_pat, res_pat, x);
    }
}

proof fn lemma_classified_elem(
    s: Seq<ResourceInfoView>,
    lbl_pat: Seq<char>,
    res_pat: Seq<char>,
    x: ResourceInfoView,
)
    ensures
        candidates_of(s, lbl_pat, res_pat).contains(x) <==> s.contains(x) && !should_ignore_spec(
            lbl_pat,
            res_pat,
            x,
        ),
        ignored_of(s, lbl_pat, res_pat).contains(x) <==> s.contains(x) && should_ignore_spec(
            lbl_pat,
            res_pat,
            x,
        ),
    decreases s.len(),
{
    if s.len() > 0 {
        let t = s.drop_first();
        lemma_classified_elem(t, lbl_pat, res_pat, x);
        lemma_cons_contains(s[0], t, x);
        assert(seq![s[0]] + t =~= s);
        assert(s.contains(x) <==> x == s[0] || t.contains(x));
        if should_ignore_spec(lbl_pat, res_pat, s[0]) {
            lemma_cons_contains(s[0], ignored_of(t, lbl_pat, res_pat), x);
            assert(candidates_of(s, lbl_pat, res_pat) == candidates_of(t, lbl_pat, res_pat));
            assert(ignored_of(s, lbl_pat, res_pat) == seq![s[0]] + ignored_of(
                t,
                lbl_pat,
                res_pat,
            ));
        } else {
            lemma_cons_contains(s[0], candidates_of(t, lbl_pat, res_pat), x);
            assert(candidates_of(s, lbl_pat, res_pat) == seq![s[0]] + candidates_of(
                t,
                lbl_pat,
                res_pat,
            ));
            assert(ignored_of(s, lbl_pat, res_pat) == ignored_of(t, lbl_pat, res_pat));
        }
    }
}

/// A record whose label the ignore-label filter matches is always placed in
/// `ignored`, whatever its path; symmetrically for the resource filter and
/// the final path segment.
pub proof fn lemma_classification_determinism(
    s: Seq<ResourceInfoView>,
    lbl_pat: Seq<char>,
    res_pat: Seq<char>,
    i: int,
)
    requires
        0 <= i < s.len(),
        regex_match_of(lbl_pat, s[i].label) || (after_last(s[i].path, '/').len() > 0
            && regex_match_of(res_pat, after_last(s[i].path, '/'))),
    ensures
        ignored_of(s, lbl_pat, res_pat).contains(s[i]),
        !candidates_of(s, lbl_pat, res_pat).contains(s[i]),
{
    lemma_classification_complete(s, lbl_pat, res_pat);
    assert(s.contains(s[i]));
}

/// The default keyword patterns matched against resource file names:
/// covers, title pages, tables of contents, dedications, advertisements and
/// other front or end matter.
pub open spec fn default_ignore_resources() -> Seq<Seq<char>> {
    seq![
        "about(?:the)?author"@,
        "endpage"@,
        "ata\\d+"@,
        "atb"@,
        "brand"@,
        "advert"@,
        "also_by"@,
        "endpage"@,
        "cover-image"@,
        "cover"@,
        "toc"@,
        "title"@,
        "about_book"@,
        "brief-toc"@,
        "bm\\d+"@,
        "dedication"@,
        "copyright"@,
        "authorsnote"@,
        "family_chart"@,
        "map"@,
        "picture_section"@,
        "dedication"@,
        "acknowledgments"@,
        "index"@,
        "notes"@,
    ]
}

/// The default patterns matched against human-readable labels.
pub open spec fn default_ignore_labels() -> Seq<Seq<char>> {
    seq![
        "Acknowledgements"@,
        "Follow Penguin"@,
        "Notes"@,
        "Works Cited"@,
        "About [tT]he (?:Book|Author)"@,
        "Image Credits"@,
        "Also By"@,
        "Acknowledgments"@,
        "Extract From"@,
        "Have You Read Them All\\?"@,
        "Copyright"@,
        "Contents"@,
        "Cover"@,
        "Title [P]age"@,
        "Dedication"@,
    ]
}

/// Builds a `ResourceExtractor` from two lists of ignore patterns, one over
/// labels and one over filenames.
#[derive(Debug)]
pub struct ResourceExtractorBuilder {
    pub ignore_labels: Vec<String>,
    pub ignore_resources: Vec<String>,
}

impl Default for ResourceExtractorBuilder {
    /// The default ignore lists cover common paratextual material.
    fn default() -> (r: Self)
        ensures
            r.ignore_labels.deep_view() == default_ignore_labels(),
            r.ignore_resources.deep_view() == default_ignore_resources(),
    {
        let mut ignore_resources: Vec<String> = Vec::new();
        ignore_resources.push("about(?:the)?author".to_owned());
        ignore_resources.push("endpage".to_owned());
        ignore_resources.push("ata\\d+".to_owned());
        ignore_resources.push("atb".to_owned());
        ignore_resources.push("brand".to_owned());
        ignore_resources.push("advert".to_owned());
        ignore_resources.push("also_by".to_owned());
        ignore_resources.push("endpage".to_owned());
        ignore_resources.push("cover-image".to_owned());
        ignore_resources.push("cover".to_owned());
        ignore_resources.push("toc".to_owned());
        ignore_resources.push("title".to_owned());
        ignore_resources.push("about_book".to_owned());
        ignore_resources.push("brief-toc".to_owned());
        ignore_resources.push("bm\\d+".to_owned());
        ignore_resources.push("dedication".to_owned());
        ignore_resources.push("copyright".to_owned());
        ignore_resources.push("authorsnote".to_owned());
        ignore_resources.push("family_chart".to_owned());
        ignore_resources.push("map".to_owned());
        ignore_resources.push("picture_section".to_owned());
        ignore_resources.push("dedication".to_owned());
        ignore_resources.push("acknowledgments".to_owned());
        ignore_resources.push("index".to_owned());
        ignore_resources.push("notes".to_owned());
        let mut ignore_labels: Vec<String> = Vec::new();
        ignore_labels.push("Acknowledgements".to_owned());
        ignore_labels.push("Follow Penguin".to_owned());
        ignore_labels.push("Notes".to_owned());
        ignore_labels.push("Works Cited".to_owned());
        ignore_labels.push("About [tT]he (?:Book|Author)".to_owned());
        ignore_labels.push("Image Credits".to_owned());
        ignore_labels.push("Also By".to_owned());
        ignore_labels.push("Acknowledgments".to_owned());
        ignore_labels.push("Extract From".to_owned());
        ignore_labels.push("Have You Read Them All\\?".to_owned());
        ignore_labels.push("Copyright".to_owned());
        ignore_labels.push("Contents".to_owned());
        ignore_labels.push("Cover".to_owned());
        ignore_labels.push("Title [P]age".to_owned());
        ignore_labels.push("Dedication".to_owned());
        proof {
            assert(ignore_resources.deep_view() =~= default_ignore_resources());
            assert(ignore_labels.deep_view() =~= default_ignore_labels());
        }
        Self { ignore_labels, ignore_resources }
    }
}

impl ResourceExtractorBuilder {
    /// Compile the two alternations.  The only failure is a configured
    /// pattern list whose alternation is not a well-formed regular
    /// expression: success is owed exactly when both alternations compile.
    pub fn build(self) -> (r: Result<ResourceExtractor, Error>)
        ensures
            r is Ok <==> regex_compiles(join_alternation(self.ignore_resources.deep_view()))
                && regex_compiles(join_alternation(self.ignore_labels.deep_view())),
            r matches Ok(ex) ==> regex_pattern_of(ex.ignore_resources) == join_alternation(
                self.ignore_resources.deep_view(),
            ) && regex_pattern_of(ex.ignore_labels) == join_alternation(
                self.ignore_labels.deep_view(),
            ),
            r matches Err(e) ==> e is RegexError,
    {
        let rx_str = join_patterns(&self.ignore_resources);
        let ignore_resources = match regex_new(rx_str.as_str()) {
            Ok(re) => re,
            Err(msg) => { return Err(Error::RegexError(msg)); },
        };
        let lb_str = join_patterns(&self.ignore_labels);
        let ignore_labels = match regex_new(lb_str.as_str()) {
            Ok(re) => re,
            Err(msg) => { return Err(Error::RegexError(msg)); },
        };
        Ok(ResourceExtractor { ignore_resources, ignore_labels })
    }
}

/// Helper for extracting resources, matching on label or filename.
#[derive(Debug)]
pub struct ResourceExtractor {
    pub ignore_labels: Regex,
    pub ignore_resources: Regex,
}

impl ResourceExtractor {
    /// The pattern the label filter was compiled from.
    pub open spec fn labels_pattern(self) -> Seq<char> {
        regex_pattern_of(self.ignore_labels)
    }

    /// The pattern the resource filter was compiled from.
    pub open spec fn resources_pattern(self) -> Seq<char> {
        regex_pattern_of(self.ignore_resources)
    }

    /// Create a new ResourceExtractor from resource and label ignore regex.
    pub fn new(ignore_resources: Regex, ignore_labels: Regex) -> (r: Self)
        ensures
            r.ignore_resources == ignore_resources,
            r.ignore_labels == ignore_labels,
    {
        Self { ignore_resources, ignore_labels }
    }

    /// Check if a resource should be ignored.
    pub fn should_ignore(&self, res: &ResourceInfo) -> (b: bool)
        ensures
            b == should_ignore_spec(self.labels_pattern(), self.resources_pattern(), res@),
    {
        if regex_is_match(&self.ignore_labels, res.label.as_str()) {
            return true;
        }
        let file_name = after_last_str(res.path.as_str(), '/');
        if file_name.unicode_len() > 0 {
            if regex_is_match(&self.ignore_resources, file_name.as_str()) {
                return true;
            }
        }
        false
    }

    /// Partition the flattened table of contents into chapter candidates
    /// and ignored resources.  Classification itself cannot fail.
    pub fn extract(&self, toc: &Vec<NavNode>) -> (r: Result<ResourceMatches, Error>)
        ensures
            r is Ok,
            r matches Ok(m) ==> m.candidates.deep_view() == candidates_of(
                flatten_list(toc@),
                self.labels_pattern(),
                self.resources_pattern(),
            ) && m.ignored.deep_view() == ignored_of(
                flatten_list(toc@),
                self.labels_pattern(),
                self.resources_pattern(),
            ),
    {
        let ghost lp = self.labels_pattern();
        let ghost rp = self.resources_pattern();
        let items = flatten_navpoints(toc);
        let ghost idv = items.deep_view();
        let mut cands: Vec<ResourceInfo> = Vec::new();
        let mut ign: Vec<ResourceInfo> = Vec::new();
        proof {
            assert(idv.subrange(0, idv.len() as int) =~= idv);
            assert(cands.deep_view() =~= Seq::<ResourceInfoView>::empty());
            assert(ign.deep_view() =~= Seq::<ResourceInfoView>::empty());
            assert(Seq::<ResourceInfoView>::empty() + candidates_of(idv, lp, rp)
                =~= candidates_of(idv, lp, rp));
            assert(Seq::<ResourceInfoView>::empty() + ignored_of(idv, lp, rp) =~= ignored_of(
                idv,
                lp,
                rp,
            ));
        }
        let mut i: usize = 0;
        while i < items.len()
            invariant
                0 <= i <= idv.len(),
                idv == items.deep_view(),
                idv.len() == items@.len(),
                lp == self.labels_pattern(),
                rp == self.resources_pattern(),
                candidates_of(idv, lp, rp) == cands.deep_view() + candidates_of(
                    idv.subrange(i as int, idv.len() as int),
                    lp,
                    rp,
                ),
                ignored_of(idv, lp, rp) == ign.deep_view() + ignored_of(
                    idv.subrange(i as int, idv.len() as int),
                    lp,
                    rp,
                ),
            decreases idv.len() - i,
        {
            let ghost rest = idv.subrange(i as int, idv.len() as int);
            proof {
                assert(rest[0] == idv[i as int]);
                assert(rest.drop_first() =~= idv.subrange(i + 1, idv.len() as int));
                assert(items@[i as int]@ == idv[i as int]);
            }
            let item = clone_info(&items[i]);
            proof {
                assert(item@ == rest[0]);
            }
            if self.should_ignore(&item) {
                let ghost pre = ign.deep_view();
                ign.push(item);
                proof {
                    assert(should_ignore_spec(lp, rp, rest[0]));
                    assert(ignored_of(rest, lp, rp) == seq![rest[0]] + ignored_of(
                        rest.drop_first(),
                        lp,
                        rp,
                    ));
                    assert(candidates_of(rest, lp, rp) == candidates_of(
                        rest.drop_first(),
                        lp,
                        rp,
                    ));
                    assert(ign.deep_view() =~= pre.push(idv[i as int]));
                    assert(pre + (seq![rest[0]] + ignored_of(rest.drop_first(), lp, rp))
                        =~= pre.push(idv[i as int]) + ignored_of(rest.drop_first(), lp, rp));
                }
            } else {
                let ghost pre = cands.deep_view();
                cands.push(item);
                proof {
                    assert(!should_ignore_spec(lp, rp, rest[0]));
                    assert(candidates_of(rest, lp, rp) == seq![rest[0]] + candidates_of(
                        rest.drop_first(),
                        lp,
                        rp,
                    ));
                    assert(ignored_of(rest, lp, rp) == ignored_of(rest.drop_first(), lp, rp));
                    assert(cands.deep_view() =~= pre.push(idv[i as int]));
                    assert(pre + (seq![rest[0]] + candidates_of(rest.drop_first(), lp, rp))
                        =~= pre.push(idv[i as int]) + candidates_of(rest.drop_first(), lp, rp));
                }
            }
            i += 1;
        }
        proof {
            assert(idv.subrange(idv.len() as int, idv.len() as int) =~= Seq::<
                ResourceInfoView,
            >::empty());
            assert(cands.deep_view() + Seq::<ResourceInfoView>::empty() =~= cands.deep_view());
            assert(ign.deep_view() + Seq::<ResourceInfoView>::empty() =~= ign.deep_view());
        }
        Ok(ResourceMatches { candidates: cands, ignored: ign })
    }
}


/// The chapter candidates the default configuration selects from a table
/// of contents: the tree flattened in pre-order, classified against the
/// default ignore lists, and deduplicated by fragment-stripped path.
pub open spec fn default_selection(toc: Seq<NavNode>) -> Seq<ResourceInfoView> {
    make_unique_spec(
        candidates_of(
            flatten_list(toc),
            join_alternation(default_ignore_labels()),
            join_alternation(default_ignore_resources()),
        ),
    )
}

/// Both default ignore alternations compile as regular expressions.
pub open spec fn default_patterns_compile() -> bool {
    regex_compiles(join_alternation(default_ignore_resources())) && regex_compiles(
        join_alternation(default_ignore_labels()),
    )
}

/// Flatten, classify with the default ignore lists, and deduplicate: the
/// candidate chapters of a book, in play order.  When nothing remains the
/// book has no chapters, which is a failure of its own, distinct from an
/// empty successful result; a default pattern list whose alternation does
/// not compile is the only other failure.
pub fn select_chapters(toc: &Vec<NavNode>) -> (r: Result<Vec<ResourceInfo>, Error>)
    ensures
        r is Ok <==> default_patterns_compile() && default_selection(toc@).len() > 0,
        r matches Ok(v) ==> v.deep_view() == default_selection(toc@),
        r matches Err(e) ==> e is RegexError || e is NoChapters,
        r matches Err(e) ==> (e is NoChapters <==> default_patterns_compile()),
        r matches Err(e) && e is NoChapters ==> default_selection(toc@).len() == 0,
{
    let ext = match ResourceExtractorBuilder::default().build() {
        Ok(e) => e,
        Err(err) => {
            return Err(err);
        },
    };
    let found = match ext.extract(toc) {
        Ok(m) => m,
        Err(err) => {
            return Err(err);
        },
    };
    let cands = ResourceMatches::make_unique(found.candidates);
    if cands.len() == 0 {
        return Err(Error::NoChapters);
    }
    Ok(cands)
}

} // verus!
