//! The environment-reconciliation core: merging an operator-declared baseline
//! of expected variable names with the live remote key/value configuration
//! into one sorted, duplicate-free, provenance-annotated view, and turning an
//! edited view back into the full replacement mapping for the remote side.

use vstd::prelude::*;

verus! {

use crate::order::lemma_name_lt_strict_total_order;
use crate::order::name_lt;
use crate::order::str_cmp;
use crate::webapp::AppserviceEnvVar;

/// One entry of the merged, user-facing view: a variable name, its live
/// remote value if the remote side has one, and whether the operator's
/// baseline declares the name as expected.
#[derive(Debug, Clone, PartialEq, Eq)]
pub struct Env {
    pub name: String,
    pub value: Option<String>,
    pub is_expected: bool,
}

impl Env {
    pub fn new(name: String, value: Option<String>, is_expected: bool) -> (r: Env)
        ensures
            r.name == name,
            r.value == value,
            r.is_expected == is_expected,
    {
        Env { name, value, is_expected }
    }
}

/// Whether the baseline declares the name `n`.
pub open spec fn base_contains(b: Seq<String>, n: Seq<char>) -> bool {
    exists|i: int| 0 <= i < b.len() && b[i]@ == n
}

/// Whether the remote configuration carries a pair named `n`.
pub open spec fn remote_contains(r: Seq<AppserviceEnvVar>, n: Seq<char>) -> bool {
    exists|i: int| 0 <= i < r.len() && r[i].name@ == n
}

/// The remote value stored under the name `n`; meaningful when the remote
/// names are unique and one of them is `n`.
pub open spec fn remote_value(r: Seq<AppserviceEnvVar>, n: Seq<char>) -> Seq<char> {
    r[choose|i: int| 0 <= i < r.len() && r[i].name@ == n].value@
}

/// The remote configuration is a mapping: no name occurs twice.
pub open spec fn remote_names_unique(r: Seq<AppserviceEnvVar>) -> bool {
    forall|i: int, j: int| 0 <= i < j < r.len() ==> r[i].name@ != r[j].name@
}

/// Whether the view `out` carries an entry named `n`.
pub open spec fn has_name(out: Seq<Env>, n: Seq<char>) -> bool {
    exists|k: int| 0 <= k < out.len() && out[k].name@ == n
}

/// The view is strictly sorted by name, so in particular duplicate-free.
pub open spec fn sorted_by_name(out: Seq<Env>) -> bool {
    forall|i: int, j: int| 0 <= i < j < out.len() ==> name_lt(out[i].name@, out[j].name@)
}

/// What it means for `out` to be the reconciled view of the baseline `b` and
/// the remote mapping `r`: one strictly sorted entry per name of `b` and of
/// `r`; an entry carries the remote value exactly when the remote side has
/// one, and `None` otherwise; and it is marked expected exactly when its name
/// is in the baseline.
pub open spec fn merged(b: Seq<String>, r: Seq<AppserviceEnvVar>, out: Seq<Env>) -> bool {
    &&& sorted_by_name(out)
    &&& forall|k: int|
        0 <= k < out.len() ==> (#[trigger] out[k]).is_expected == base_contains(b, out[k].name@)
    &&& forall|k: int|
        0 <= k < out.len() && remote_contains(r, (#[trigger] out[k]).name@) ==> out[k].value is Some
            && out[k].value->0@ == remote_value(r, out[k].name@)
    &&& forall|k: int|
        0 <= k < out.len() && !remote_contains(r, (#[trigger] out[k]).name@) ==> out[k].value is None
    &&& forall|k: int|
        0 <= k < out.len() ==> base_contains(b, (#[trigger] out[k]).name@) || remote_contains(
            r,
            out[k].name@,
        )
    &&& forall|n: Seq<char>| #[trigger] base_contains(b, n) ==> has_name(out, n)
    &&& forall|n: Seq<char>| #[trigger] remote_contains(r, n) ==> has_name(out, n)
}

/// The names of a view, in presentation order.
pub open spec fn names_of(out: Seq<Env>) -> Seq<Seq<char>> {
    out.map_values(|e: Env| e.name@)
}

/// The baseline as a set of names.
pub open spec fn base_name_set(b: Seq<String>) -> Set<Seq<char>> {
    Set::new(|n: Seq<char>| base_contains(b, n))
}

/// The remote mapping's key set.
pub open spec fn remote_name_set(r: Seq<AppserviceEnvVar>) -> Set<Seq<char>> {
    Set::new(|n: Seq<char>| remote_contains(r, n))
}

/// In a duplicate-free remote mapping, the value looked up under a name is
/// the value of the one pair carrying that name.
proof fn lemma_remote_value_agrees(r: Seq<AppserviceEnvVar>, i: int)
    requires
        remote_names_unique(r),
        0 <= i < r.len(),
    ensures
        remote_contains(r, r[i].name@),
        remote_value(r, r[i].name@) == r[i].value@,
{
    assert(0 <= i < r.len() && r[i].name@ == r[i].name@);
    assert(remote_contains(r, r[i].name@));
    let c = choose|k: int| 0 <= k < r.len() && r[k].name@ == r[i].name@;
    assert(0 <= c < r.len() && r[c].name@ == r[i].name@);
    assert(c == i);
}

/// Where a new entry named `name` stands in the sorted view `out`: the index
/// of the entry already carrying that name, or, when there is none, the
/// position at which the name must be inserted to keep the view sorted.
fn find_slot(out: &Vec<Env>, name: &str) -> (r: (usize, bool))
    requires
        sorted_by_name(out@),
    ensures
        r.0 <= out@.len(),
        forall|k: int| 0 <= k < r.0 ==> name_lt((#[trigger] out@[k]).name@, name@),
        r.1 ==> r.0 < out@.len() && out@[r.0 as int].name@ == name@,
        !r.1 ==> forall|k: int| r.0 <= k < out@.len() ==> name_lt(name@, (#[trigger] out@[k]).name@),
        !r.1 ==> !has_name(out@, name@),
{
    let n = out.len();
    let mut i: usize = 0;
    while i < n
        invariant
            sorted_by_name(out@),
            n == out@.len(),
            i <= n,
            forall|k: int| 0 <= k < i ==> name_lt((#[trigger] out@[k]).name@, name@),
        decreases n - i,
    {
        let c = str_cmp(out[i].name.as_str(), name);
        if c == 0 {
            return (i, true);
        }
        if c > 0 {
            proof {
                assert forall|k: int| i <= k < out@.len() implies name_lt(
                    name@,
                    (#[trigger] out@[k]).name@,
                ) by {
                    if k > i {
                        lemma_name_lt_strict_total_order(
                            name@,
                            out@[i as int].name@,
                            out@[k].name@,
                        );
                    }
                }
                assert forall|k: int| 0 <= k < out@.len() implies out@[k].name@ != name@ by {
                    lemma_name_lt_strict_total_order(out@[k].name@, name@, name@);
                }
            }
            return (i, false);
        }
        proof {
            lemma_name_lt_strict_total_order(out@[i as int].name@, name@, name@);
        }
        i += 1;
    }
    proof {
        assert forall|k: int| 0 <= k < out@.len() implies out@[k].name@ != name@ by {
            lemma_name_lt_strict_total_order(out@[k].name@, name@, name@);
        }
    }
    (i, false)
}

/// The baseline name list used for a read: what was loaded, or the empty
/// list when loading failed — a missing or unreadable baseline never fails
/// the read itself.
pub fn expected_names(loaded: Option<Vec<String>>) -> (r: Vec<String>)
    ensures
        loaded is Some ==> r == loaded->0,
        loaded is None ==> r@ == Seq::<String>::empty(),
{
    match loaded {
        Option::Some(v) => v,
        Option::None => Vec::new(),
    }
}

/// Merges the baseline names `baseline` and the remote mapping `remote` into
/// the reconciled view: one entry per name, strictly sorted by name. A
/// baseline name missing remotely yields `{name, value: None, is_expected:
/// true}`; a remote pair yields its value, marked expected exactly when the
/// baseline also declares its name.
pub fn reconcile(baseline: &Vec<String>, remote: &Vec<AppserviceEnvVar>) -> (out: Vec<Env>)
    requires
        remote_names_unique(remote@),
    ensures
        merged(baseline@, remote@, out@),
        names_of(out@).no_duplicates(),
        names_of(out@).to_set() =~= base_name_set(baseline@).union(remote_name_set(remote@)),
        out@.len() == base_name_set(baseline@).union(remote_name_set(remote@)).len(),
{
    let mut out: Vec<Env> = Vec::new();
    let mut i: usize = 0;
    while i < baseline.len()
        invariant
            i <= baseline@.len(),
            sorted_by_name(out@),
            forall|k: int| 0 <= k < out@.len() ==> (#[trigger] out@[k]).value is None,
            forall|k: int| 0 <= k < out@.len() ==> (#[trigger] out@[k]).is_expected == true,
            forall|k: int|
                0 <= k < out@.len() ==> base_contains(
                    baseline@.take(i as int),
                    (#[trigger] out@[k]).name@,
                ),
            forall|n: Seq<char>|
                #[trigger] base_contains(baseline@.take(i as int), n) ==> has_name(out@, n),
        decreases baseline@.len() - i,
    {
        let name: &String = &baseline[i];
        let ghost pre = baseline@.take(i as int);
        let ghost post = baseline@.take(i as int + 1);
        proof {
            assert(post =~= pre.push(baseline@[i as int]));
            assert forall|n: Seq<char>| #[trigger] base_contains(post, n) implies base_contains(
                pre,
                n,
            ) || n == baseline@[i as int]@ by {
                let w = choose|w: int| 0 <= w < post.len() && post[w]@ == n;
                if w < i {
                    assert(pre[w]@ == n);
                }
            }
            assert forall|n: Seq<char>| #[trigger] base_contains(pre, n) implies base_contains(
                post,
                n,
            ) by {
                let w = choose|w: int| 0 <= w < pre.len() && pre[w]@ == n;
                assert(post[w]@ == n);
            }
            assert(base_contains(post, baseline@[i as int]@)) by {
                assert(post[i as int]@ == baseline@[i as int]@);
            }
        }
        let (p, found) = find_slot(&out, name.as_str());
        if !found {
            let e = Env::new(name.clone(), None, true);
            let ghost old_out = out@;
            out.insert(p, e);
            proof {
                old_out.insert_ensures(p as int, e);
                assert(e.name@ == baseline@[i as int]@);
                assert forall|x: int, y: int| 0 <= x < y < out@.len() implies name_lt(
                    out@[x].name@,
                    out@[y].name@,
                ) by {
                    if y < p {
                        assert(out@[x] == old_out[x] && out@[y] == old_out[y]);
                    } else if y == p {
                        assert(out@[x] == old_out[x]);
                    } else if x < p {
                        assert(out@[y] == old_out[y - 1] && y - 1 >= p);
                    } else if x == p {
                        assert(out@[y] == old_out[y - 1] && y - 1 >= p);
                    } else {
                        assert(out@[x] == old_out[x - 1] && out@[y] == old_out[y - 1]);
                    }
                }
                assert forall|n: Seq<char>| #[trigger] base_contains(post, n) implies has_name(
                    out@,
                    n,
                ) by {
                    if n == baseline@[i as int]@ {
                        assert(out@[p as int].name@ == n);
                    } else {
                        let w = choose|k: int| 0 <= k < old_out.len() && old_out[k].name@ == n;
                        if w < p {
                            assert(out@[w].name@ == n);
                        } else {
                            assert(out@[w + 1].name@ == n);
                        }
                    }
                }
                assert forall|k: int| 0 <= k < out@.len() implies base_contains(
                    post,
                    (#[trigger] out@[k]).name@,
                ) && out@[k].value is None && out@[k].is_expected == true by {
                    if k < p {
                        assert(out@[k] == old_out[k]);
                    } else if k > p {
                        assert(out@[k] == old_out[k - 1]);
                    }
                }
            }
        } else {
            proof {
                assert forall|n: Seq<char>| #[trigger] base_contains(post, n) implies has_name(
                    out@,
                    n,
                ) by {
                    if n == baseline@[i as int]@ {
                        assert(out@[p as int].name@ == n);
                    }
                }
            }
        }
        i += 1;
    }
    proof {
        assert(baseline@.take(baseline@.len() as int) =~= baseline@);
        assert(remote@.take(0) =~= Seq::<AppserviceEnvVar>::empty());
        assert forall|k: int| 0 <= k < out@.len() implies !remote_contains(
            remote@.take(0),
            (#[trigger] out@[k]).name@,
        ) by {}
        assert(merged(baseline@, remote@.take(0), out@));
    }
    let mut j: usize = 0;
    while j < remote.len()
        invariant
            j <= remote@.len(),
            remote_names_unique(remote@),
            merged(baseline@, remote@.take(j as int), out@),
        decreases remote@.len() - j,
    {
        let ghost rj = remote@.take(j as int);
        let ghost rj1 = remote@.take(j as int + 1);
        let ghost nm = remote@[j as int].name@;
        proof {
            assert(rj1 =~= rj.push(remote@[j as int]));
            assert forall|i2: int, j2: int| 0 <= i2 < j2 < rj1.len() implies rj1[i2].name@
                != rj1[j2].name@ by {
                assert(rj1[i2] == remote@[i2] && rj1[j2] == remote@[j2]);
            }
            assert forall|m: Seq<char>| #[trigger] remote_contains(rj1, m) implies remote_contains(
                rj,
                m,
            ) || m == nm by {
                let w = choose|w: int| 0 <= w < rj1.len() && rj1[w].name@ == m;
                if w < j {
                    assert(rj[w].name@ == m);
                }
            }
            assert forall|m: Seq<char>| #[trigger] remote_contains(rj, m) implies remote_contains(
                rj1,
                m,
            ) by {
                let w = choose|w: int| 0 <= w < rj.len() && rj[w].name@ == m;
                assert(rj1[w].name@ == m);
            }
            assert(!remote_contains(rj, nm)) by {
                if remote_contains(rj, nm) {
                    let w = choose|w: int| 0 <= w < rj.len() && rj[w].name@ == nm;
                    assert(remote@[w].name@ == remote@[j as int].name@);
                }
            }
            assert(rj1[j as int] == remote@[j as int]);
            lemma_remote_value_agrees(rj1, j as int);
            assert forall|m: Seq<char>| #[trigger] remote_contains(rj, m) implies remote_value(
                rj1,
                m,
            ) == remote_value(rj, m) by {
                let w = choose|w: int| 0 <= w < rj.len() && rj[w].name@ == m;
                lemma_remote_value_agrees(rj, w);
                lemma_remote_value_agrees(rj1, w);
            }
        }
        let entry = &remote[j];
        let (p, found) = find_slot(&out, entry.name.as_str());
        if found {
            proof {
                // The entry already carrying this name cannot stem from the
                // processed remote prefix, whose names all differ from it; so
                // its name is in the baseline and stays marked expected.
                assert(base_contains(baseline@, out@[p as int].name@));
            }
            let e = Env::new(entry.name.clone(), Some(entry.value.clone()), true);
            let ghost old_out = out@;
            out.set(p, e);
            proof {
                assert(e.name@ == nm);
                assert(out@ == old_out.update(p as int, e));
                assert forall|x: int, y: int| 0 <= x < y < out@.len() implies name_lt(
                    out@[x].name@,
                    out@[y].name@,
                ) by {
                    assert(out@[x].name@ == old_out[x].name@);
                    assert(out@[y].name@ == old_out[y].name@);
                }
                assert forall|k: int| 0 <= k < out@.len() && k != p implies (
                #[trigger] out@[k]).name@ != nm by {
                    lemma_name_lt_strict_total_order(out@[k].name@, nm, nm);
                    if k < p {
                        assert(name_lt(old_out[k].name@, old_out[p as int].name@));
                    } else {
                        assert(name_lt(old_out[p as int].name@, old_out[k].name@));
                    }
                }
                assert forall|n: Seq<char>| #[trigger] has_name(old_out, n) implies has_name(
                    out@,
                    n,
                ) by {
                    let w = choose|k: int| 0 <= k < old_out.len() && old_out[k].name@ == n;
                    assert(out@[w].name@ == n);
                }
                assert(merged(baseline@, rj1, out@));
            }
        } else {
            proof {
                assert(!base_contains(baseline@, nm));
            }
            let e = Env::new(entry.name.clone(), Some(entry.value.clone()), false);
            let ghost old_out = out@;
            out.insert(p, e);
            proof {
                old_out.insert_ensures(p as int, e);
                assert(e.name@ == nm);
                assert forall|x: int, y: int| 0 <= x < y < out@.len() implies name_lt(
                    out@[x].name@,
                    out@[y].name@,
                ) by {
                    if y < p {
                        assert(out@[x] == old_out[x] && out@[y] == old_out[y]);
                    } else if y == p {
                        assert(out@[x] == old_out[x]);
                    } else if x < p {
                        assert(out@[y] == old_out[y - 1] && y - 1 >= p);
                    } else if x == p {
                        assert(out@[y] == old_out[y - 1] && y - 1 >= p);
                    } else {
                        assert(out@[x] == old_out[x - 1] && out@[y] == old_out[y - 1]);
                    }
                }
                assert forall|k: int| 0 <= k < out@.len() && k != p implies out@[k]
                    == old_out[if k < p {
                    k
                } else {
                    k - 1
                }] by {}
                assert forall|k: int| 0 <= k < out@.len() && k != p implies (
                #[trigger] out@[k]).name@ != nm by {
                    lemma_name_lt_strict_total_order(out@[k].name@, nm, nm);
                }
                assert forall|n: Seq<char>| #[trigger] has_name(old_out, n) implies has_name(
                    out@,
                    n,
                ) by {
                    let w = choose|k: int| 0 <= k < old_out.len() && old_out[k].name@ == n;
                    if w < p {
                        assert(out@[w].name@ == n);
                    } else {
                        assert(out@[w + 1].name@ == n);
                    }
                }
                assert(out@[p as int] == e);
                assert(merged(baseline@, rj1, out@));
            }
        }
        j += 1;
    }
    proof {
        assert(remote@.take(remote@.len() as int) =~= remote@);
        lemma_merged_count(baseline@, remote@, out@);
    }
    out
}

/// Law: the reconciled view has exactly one entry per name in the union of
/// the baseline set and the remote mapping's key set — `|B ∪ keys(R)|`
/// entries in all, with no duplicate names.
pub proof fn lemma_merged_count(b: Seq<String>, r: Seq<AppserviceEnvVar>, out: Seq<Env>)
    requires
        merged(b, r, out),
    ensures
        names_of(out).no_duplicates(),
        names_of(out).to_set() =~= base_name_set(b).union(remote_name_set(r)),
        out.len() == base_name_set(b).union(remote_name_set(r)).len(),
{
    let ns = names_of(out);
    assert forall|i: int, j: int|
        0 <= i < ns.len() && 0 <= j < ns.len() && i != j implies ns[i] != ns[j] by {
        lemma_name_lt_strict_total_order(out[i].name@, out[j].name@, out[j].name@);
        if i < j {
            assert(name_lt(out[i].name@, out[j].name@));
        } else {
            assert(name_lt(out[j].name@, out[i].name@));
            lemma_name_lt_strict_total_order(out[j].name@, out[i].name@, out[i].name@);
        }
    }
    assert forall|n: Seq<char>| #[trigger]
        ns.to_set().contains(n) implies base_name_set(b).union(remote_name_set(r)).contains(n) by {
        let w = choose|w: int| 0 <= w < ns.len() && ns[w] == n;
        assert(base_contains(b, out[w].name@) || remote_contains(r, out[w].name@));
    }
    assert forall|n: Seq<char>| #[trigger]
        base_name_set(b).union(remote_name_set(r)).contains(n) implies ns.to_set().contains(n) by {
        assert(has_name(out, n));
        let w = choose|k: int| 0 <= k < out.len() && out[k].name@ == n;
        assert(ns[w] == n);
        assert(ns.contains(n));
    }
    ns.unique_seq_to_set();
    assert(ns.to_set() =~= base_name_set(b).union(remote_name_set(r)));
}

/// Law: what the reconciled view holds for each name. A baseline name absent
/// remotely appears as `{name, value: None, is_expected: true}`; a remote
/// name absent from the baseline appears as `{name, value: Some(remote
/// value), is_expected: false}`; a name in both appears as `{name, value:
/// Some(remote value), is_expected: true}`.
pub proof fn lemma_merged_cases(b: Seq<String>, r: Seq<AppserviceEnvVar>, out: Seq<Env>, n: Seq<
    char,
>)
    requires
        merged(b, r, out),
    ensures
        base_contains(b, n) && !remote_contains(r, n) ==> exists|k: int|
            0 <= k < out.len() && (#[trigger] out[k]).name@ == n && out[k].value is None
                && out[k].is_expected == true,
        remote_contains(r, n) && !base_contains(b, n) ==> exists|k: int|
            0 <= k < out.len() && (#[trigger] out[k]).name@ == n && out[k].value is Some
                && out[k].value->0@ == remote_value(r, n) && out[k].is_expected == false,
        base_contains(b, n) && remote_contains(r, n) ==> exists|k: int|
            0 <= k < out.len() && (#[trigger] out[k]).name@ == n && out[k].value is Some
                && out[k].value->0@ == remote_value(r, n) && out[k].is_expected == true,
{
    if base_contains(b, n) || remote_contains(r, n) {
        assert(has_name(out, n));
        let k = choose|k: int| 0 <= k < out.len() && out[k].name@ == n;
        assert(0 <= k < out.len() && out[k].name@ == n && out[k].is_expected == base_contains(
            b,
            n,
        ));
    }
}

/// The full replacement mapping derived from an edited view: the entries
/// that carry a value, in order, as name/value pairs. An entry whose value is
/// `None` is dropped, never sent — that is how an operator deletes a
/// baseline-only placeholder — while an explicit empty-string value survives.
pub open spec fn replacement_of(edits: Seq<Env>) -> Seq<AppserviceEnvVar>
    decreases edits.len(),
{
    if edits.len() == 0 {
        Seq::empty()
    } else {
        let init = replacement_of(edits.drop_last());
        if edits.last().value is Some {
            init.push(AppserviceEnvVar { name: edits.last().name, value: edits.last().value->0 })
        } else {
            init
        }
    }
}

/// A key/value list read as a mapping from names to values.
pub open spec fn as_mapping(r: Seq<AppserviceEnvVar>) -> Map<Seq<char>, Seq<char>> {
    Map::new(|n: Seq<char>| remote_contains(r, n), |n: Seq<char>| remote_value(r, n))
}

/// Builds the full replacement mapping for a write-back from an edited view:
/// exactly the value-bearing entries, as name/value pairs. The result is the
/// **entire** desired remote state — any remote key missing from it is
/// deleted remotely — so it is derived from the whole view, never a delta.
pub fn apply_edits(edits: &Vec<Env>) -> (r: Vec<AppserviceEnvVar>)
    ensures
        r@ == replacement_of(edits@),
{
    let mut r: Vec<AppserviceEnvVar> = Vec::new();
    let mut i: usize = 0;
    while i < edits.len()
        invariant
            i <= edits@.len(),
            r@ == replacement_of(edits@.take(i as int)),
        decreases edits@.len() - i,
    {
        let e = &edits[i];
        proof {
            assert(edits@.take(i as int + 1).drop_last() =~= edits@.take(i as int));
            assert(edits@.take(i as int + 1).last() == edits@[i as int]);
        }
        match &e.value {
            Option::Some(v) => {
                r.push(AppserviceEnvVar { name: e.name.clone(), value: v.clone() });
            },
            Option::None => {},
        }
        i += 1;
    }
    proof {
        assert(edits@.take(edits@.len() as int) =~= edits@);
    }
    r
}

/// Law: the replacement mapping never includes an entry whose value was
/// `None` — every pair it carries stems from a value-bearing edit, with that
/// edit's exact name and value (an explicit empty string included) — and
/// every value-bearing edit contributes its pair.
pub proof fn lemma_replacement_entries(edits: Seq<Env>)
    ensures
        forall|k: int|
            0 <= k < replacement_of(edits).len() ==> exists|j: int|
                0 <= j < edits.len() && (#[trigger] replacement_of(edits)[k]).name == edits[j].name
                    && edits[j].value == Some(replacement_of(edits)[k].value),
        forall|j: int|
            0 <= j < edits.len() && (#[trigger] edits[j]).value is Some ==> replacement_of(
                edits,
            ).contains((AppserviceEnvVar { name: edits[j].name, value: edits[j].value->0 })),
    decreases edits.len(),
{
    if edits.len() > 0 {
        let rest = edits.drop_last();
        let rep = replacement_of(edits);
        let repr = replacement_of(rest);
        lemma_replacement_entries(rest);
        assert forall|k: int| 0 <= k < rep.len() implies exists|j: int|
            0 <= j < edits.len() && (#[trigger] rep[k]).name == edits[j].name && edits[j].value
                == Some(rep[k].value) by {
            if k < repr.len() {
                assert(rep[k] == repr[k]);
                let j = choose|j: int|
                    0 <= j < rest.len() && repr[k].name == rest[j].name && rest[j].value == Some(
                        repr[k].value,
                    );
                assert(edits[j] == rest[j]);
                assert(0 <= j < edits.len() && rep[k].name == edits[j].name && edits[j].value
                    == Some(rep[k].value));
            } else {
                let j = edits.len() - 1;
                assert(rep[k].name == edits[j].name && edits[j].value == Some(rep[k].value));
            }
        }
        assert forall|j: int| 0 <= j < edits.len() && (#[trigger] edits[j]).value is Some implies rep
            .contains((AppserviceEnvVar { name: edits[j].name, value: edits[j].value->0 })) by {
            let pair = AppserviceEnvVar { name: edits[j].name, value: edits[j].value->0 };
            if j < edits.len() - 1 {
                assert(edits[j] == rest[j]);
                assert(repr.contains(pair));
                let w = choose|w: int| 0 <= w < repr.len() && repr[w] == pair;
                assert(rep[w] == pair);
            } else {
                assert(rep[rep.len() - 1] == pair);
            }
        }
    }
}

/// Law: a no-op edit cycle is the identity on the remote side. Applying the
/// edits of a reconciled view unchanged yields a replacement mapping equal to
/// the remote mapping itself: the baseline-only placeholders (value `None`)
/// are dropped, and every remote key keeps its exact value.
pub proof fn lemma_no_op_edit_round_trip(b: Seq<String>, r: Seq<AppserviceEnvVar>, out: Seq<Env>)
    requires
        remote_names_unique(r),
        merged(b, r, out),
    ensures
        as_mapping(replacement_of(out)) == as_mapping(r),
{
    let sent = replacement_of(out);
    lemma_replacement_entries(out);
    assert forall|n: Seq<char>| #[trigger]
        remote_contains(sent, n) implies remote_contains(r, n) && remote_value(sent, n)
        == remote_value(r, n) by {
        let c = choose|i: int| 0 <= i < sent.len() && sent[i].name@ == n;
        let j = choose|j: int|
            0 <= j < out.len() && sent[c].name == out[j].name && out[j].value == Some(
                sent[c].value,
            );
        assert(out[j].name@ == n);
        assert(out[j].value is Some);
        assert(remote_contains(r, out[j].name@)) by {
            if !remote_contains(r, out[j].name@) {
                assert(out[j].value is None);
            }
        }
        assert(out[j].value->0@ == remote_value(r, n));
        assert(sent[c].value@ == remote_value(r, n));
        assert(remote_value(sent, n) == sent[c].value@);
    }
    assert forall|n: Seq<char>| #[trigger]
        remote_contains(r, n) implies remote_contains(sent, n) by {
        assert(has_name(out, n));
        let j = choose|k: int| 0 <= k < out.len() && out[k].name@ == n;
        assert(out[j].value is Some);
        let pair = AppserviceEnvVar { name: out[j].name, value: out[j].value->0 };
        assert(sent.contains(pair));
        let w = choose|i: int| 0 <= i < sent.len() && sent[i] == pair;
        assert(sent[w].name@ == n);
    }
    assert(as_mapping(sent) =~= as_mapping(r));
}

} // verus!
