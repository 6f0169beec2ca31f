//! Book-level metadata values: each key maps to one string or to a list of
//! strings, chosen by the arity of the source field.

use vstd::prelude::*;

use crate::text::str_eq;

verus! {

/// A metadata value: a single string or a list of strings.
#[derive(Debug, Clone)]
pub enum MetaVar {
    One(String),
    Many(Vec<String>),
}

/// The abstract value of a `MetaVar`.
pub enum MetaVarView {
    One(Seq<char>),
    Many(Seq<Seq<char>>),
}

impl View for MetaVar {
    type V = MetaVarView;

    open spec fn view(&self) -> MetaVarView {
        match self {
            MetaVar::One(s) => MetaVarView::One(s@),
            MetaVar::Many(v) => MetaVarView::Many(v.deep_view()),
        }
    }
}

/// The value shape a metadata field with values `vals` takes: `One` for
/// exactly one value, `Many` for every other arity.
pub open spec fn meta_var_of(vals: Seq<Seq<char>>) -> MetaVarView {
    if vals.len() == 1 {
        MetaVarView::One(vals[0])
    } else {
        MetaVarView::Many(vals)
    }
}

/// Create a table of MetaVars from a book's metadata, handed over as
/// key / values pairs.  Keys keep their order; a field with exactly one
/// value becomes `One`, every other arity becomes `Many`.
pub fn meta_vars_from_metadata(metadata: &Vec<(String, Vec<String>)>) -> (r: Vec<(String, MetaVar)>)
    ensures
        r@.len() == metadata@.len(),
        forall|i: int|
            0 <= i < metadata@.len() ==> #[trigger] r@[i].0@ == metadata@[i].0@ && r@[i].1@
                == meta_var_of(metadata@[i].1.deep_view()),
{
    broadcast use vstd::std_specs::vec::vec_clone_deep_view_proof;

    let mut r: Vec<(String, MetaVar)> = Vec::new();
    let mut i: usize = 0;
    while i < metadata.len()
        invariant
            0 <= i <= metadata@.len(),
            r@.len() == i,
            forall|j: int|
                0 <= j < i ==> #[trigger] r@[j].0@ == metadata@[j].0@ && r@[j].1@ == meta_var_of(
                    metadata@[j].1.deep_view(),
                ),
        decreases metadata@.len() - i,
    {
        let (key, vals) = &metadata[i];
        let var = if vals.len() == 1 {
            MetaVar::One(vals[0].clone())
        } else {
            let copy = vals.clone();
            proof {
                assert(copy.deep_view() =~= vals.deep_view());
            }
            MetaVar::Many(copy)
        };
        r.push((key.clone(), var));
        i += 1;
    }
    r
}


/// The index of the first pair in `g` whose key is `k`, or -1 when no pair
/// carries it.
pub open spec fn find_key(g: Seq<(Seq<char>, Seq<Seq<char>>)>, k: Seq<char>) -> int
    decreases g.len(),
{
    if g.len() == 0 {
        -1
    } else if g[0].0 == k {
        0
    } else {
        let r = find_key(g.drop_first(), k);
        if r == -1 {
            -1
        } else {
            r + 1
        }
    }
}

proof fn lemma_find_key_bounds(g: Seq<(Seq<char>, Seq<Seq<char>>)>, k: Seq<char>)
    ensures
        -1 <= find_key(g, k) < g.len(),
        find_key(g, k) >= 0 ==> g[find_key(g, k)].0 == k,
        find_key(g, k) == -1 ==> forall|j: int| 0 <= j < g.len() ==> (#[trigger] g[j]).0 != k,
    decreases g.len(),
{
    if g.len() > 0 && g[0].0 != k {
        lemma_find_key_bounds(g.drop_first(), k);
        if find_key(g, k) == -1 {
            assert forall|j: int| 0 <= j < g.len() implies (#[trigger] g[j]).0 != k by {
                if j > 0 {
                    assert(g.drop_first()[j - 1] == g[j]);
                }
            }
        }
    }
}

proof fn lemma_find_key_at(g: Seq<(Seq<char>, Seq<Seq<char>>)>, k: Seq<char>, idx: int)
    requires
        0 <= idx < g.len(),
        g[idx].0 == k,
        forall|j: int| 0 <= j < idx ==> (#[trigger] g[j]).0 != k,
    ensures
        find_key(g, k) == idx,
    decreases g.len(),
{
    if idx > 0 {
        assert(g[0].0 != k);
        let t = g.drop_first();
        assert forall|j: int| 0 <= j < idx - 1 implies (#[trigger] t[j]).0 != k by {
            assert(t[j] == g[j + 1]);
        }
        assert(t[idx - 1] == g[idx]);
        lemma_find_key_at(t, k, idx - 1);
    }
}

/// The key / values table a flat list of key / value items groups into:
/// keys in first-appearance order, each key's values in item order.
pub open spec fn group_spec(items: Seq<(Seq<char>, Seq<char>)>) -> Seq<(Seq<char>, Seq<
    Seq<char>,
>)>
    decreases items.len(),
{
    if items.len() == 0 {
        Seq::empty()
    } else {
        let g = group_spec(items.drop_last());
        let (k, v) = items.last();
        let idx = find_key(g, k);
        if idx >= 0 {
            g.update(idx, (k, g[idx].1.push(v)))
        } else {
            g.push((k, seq![v]))
        }
    }
}

/// Group a flat list of key / value items, as a container's metadata
/// arrives, into the key / values table the rest of the pipeline
/// consumes: keys keep their first-appearance order, and each key's
/// values keep item order.
pub fn group_metadata(items: &Vec<(String, String)>) -> (r: Vec<(String, Vec<String>)>)
    ensures
        r.deep_view() == group_spec(items.deep_view()),
{
    let ghost idv = items.deep_view();
    let mut out: Vec<(String, Vec<String>)> = Vec::new();
    proof {
        assert(out.deep_view() =~= group_spec(idv.subrange(0, 0)));
    }
    let mut i: usize = 0;
    while i < items.len()
        invariant
            0 <= i <= idv.len(),
            idv == items.deep_view(),
            idv.len() == items@.len(),
            out.deep_view() == group_spec(idv.subrange(0, i as int)),
        decreases idv.len() - i,
    {
        let ghost g = out.deep_view();
        proof {
            assert(idv[i as int] == (items@[i as int].0@, items@[i as int].1@));
            lemma_find_key_bounds(g, idv[i as int].0);
        }
        let item = &items[i];
        let mut idx: usize = 0;
        let mut found = false;
        while idx < out.len() && !found
            invariant
                0 <= idx <= out@.len(),
                g == out.deep_view(),
                g.len() == out@.len(),
                found ==> idx < g.len() && g[idx as int].0 == item.0@,
                forall|j: int| 0 <= j < idx ==> (#[trigger] g[j]).0 != item.0@,
            decreases g.len() - idx + (if found {
                0int
            } else {
                1int
            }),
        {
            proof {
                assert(g[idx as int] == (out@[idx as int].0@, out@[idx as int].1.deep_view()));
            }
            if str_eq(out[idx].0.as_str(), item.0.as_str()) {
                found = true;
            } else {
                idx += 1;
            }
        }
        let ghost pre = idv.subrange(0, i as int);
        proof {
            assert(idv.subrange(0, i + 1).drop_last() =~= pre);
            assert(idv.subrange(0, i + 1).last() == idv[i as int]);
        }
        if found {
            proof {
                lemma_find_key_at(g, idv[i as int].0, idx as int);
            }
            let ghost ov0 = out@;
            let mut pair = out.remove(idx);
            let ghost pair0 = pair;
            pair.1.push(item.1.clone());
            out.insert(idx, pair);
            proof {
                let k = idv[i as int].0;
                let updated = g.update(idx as int, (k, g[idx as int].1.push(idv[i as int].1)));
                assert(pair0 == ov0[idx as int]);
                assert(out@ =~= ov0.update(idx as int, pair));
                assert(g[idx as int] == (ov0[idx as int].0@, ov0[idx as int].1.deep_view()));
                assert(pair.0 == pair0.0);
                assert(pair.1@ == pair0.1@.push(items@[i as int].1));
                assert(pair.1.deep_view() =~= pair0.1.deep_view().push(idv[i as int].1)) by {
                    assert forall|w: int|
                        0 <= w < pair.1@.len() implies pair.1.deep_view()[w] == pair0.1
                        .deep_view().push(idv[i as int].1)[w] by {
                        assert(pair.1.deep_view()[w] == pair.1@[w]@);
                        if w < pair0.1@.len() {
                            assert(pair.1@[w] == pair0.1@[w]);
                        }
                    }
                }
                assert forall|j: int|
                    0 <= j < out@.len() implies out.deep_view()[j] == updated[j] by {
                    assert(out.deep_view()[j] == (out@[j].0@, out@[j].1.deep_view()));
                    if j == idx {
                        assert(out@[j] == pair);
                        assert(pair.0@ == k);
                    } else {
                        assert(out@[j] == ov0[j]);
                        assert(g[j] == (ov0[j].0@, ov0[j].1.deep_view()));
                    }
                }
                assert(out.deep_view() =~= updated);
            }
        } else {
            proof {
                assert(forall|j: int| 0 <= j < g.len() ==> (#[trigger] g[j]).0 != idv[
                    i as int
                ].0);
                lemma_find_key_bounds(g, idv[i as int].0);
                assert(find_key(g, idv[i as int].0) == -1);
            }
            out.push((item.0.clone(), vec![item.1.clone()]));
            proof {
                let k = idv[i as int].0;
                let appended = g.push((k, seq![idv[i as int].1]));
                assert forall|j: int|
                    0 <= j < out@.len() implies out.deep_view()[j] == appended[j] by {
                    assert(out.deep_view()[j] == (out@[j].0@, out@[j].1.deep_view()));
                }
                assert(out.deep_view() =~= appended);
            }
        }
        i += 1;
    }
    proof {
        assert(idv.subrange(0, idv.len() as int) =~= idv);
    }
    out
}

} // verus!
