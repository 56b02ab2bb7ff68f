//! The hierarchy builder: from a flat, already-sorted sequence of
//! documents, derive the set of directories — every strict slash prefix
//! of a document path — group documents under their immediate parent,
//! and render the nested outline depth first: at each level the child
//! directories first, alphabetically, then the documents, with the last
//! entry of each level drawn with a closing connector.

use vstd::prelude::*;
use vstd::string::StrSliceExecFns;
use vstd::string::StringExecFns;
use crate::lint::parent_dir;
use crate::mem::{Mem, MemV};
use crate::store::dir_above;
use crate::text::{
    lex_le, lex_lt, lemma_lex_le_total, lemma_lex_le_trans, seg_start,
    str_eq, str_le, str_starts_with, str_views,
};

verus! {

/// The views of a sequence of documents.
pub open spec fn mem_views(s: Seq<Mem>) -> Seq<MemV> {
    s.map_values(|m: Mem| m@)
}

/// A sorted, duplicate-free directory listing for a document set: it
/// holds exactly the strict slash prefixes of the documents' paths.
pub open spec fn dirs_ok(ds: Seq<Seq<char>>, ms: Seq<MemV>) -> bool {
    &&& forall|a: int, b: int|
        0 <= a < b < ds.len() ==> lex_lt(#[trigger] ds[a], #[trigger] ds[b])
    &&& forall|d: Seq<char>|
        ds.contains(d) <==> exists|i: int|
            0 <= i < ms.len() && dir_above(d, (#[trigger] ms[i]).path)
}

/// The direct child directories of `parent` among `ds`, in order.
pub open spec fn child_of(ds: Seq<Seq<char>>, parent: Seq<char>) -> Seq<
    Seq<char>,
>
    decreases ds.len(),
{
    if ds.len() == 0 {
        Seq::empty()
    } else if is_child_dir(ds[0], parent) {
        seq![ds[0]] + child_of(ds.skip(1), parent)
    } else {
        child_of(ds.skip(1), parent)
    }
}

/// A directory sits directly under `parent`: below it, with no further
/// slash in its local name.
pub open spec fn is_child_dir(d: Seq<char>, parent: Seq<char>) -> bool {
    if parent.len() == 0 {
        d.len() > 0 && forall|j: int| 0 <= j < d.len() ==> d[j] != '/'
    } else {
        dir_above(parent, d) && forall|j: int|
            parent.len() + 1 <= j < d.len() ==> d[j] != '/'
    }
}

/// The documents whose immediate parent is `parent`, in order.
pub open spec fn items_of(ms: Seq<MemV>, parent: Seq<char>) -> Seq<MemV>
    decreases ms.len(),
{
    if ms.len() == 0 {
        Seq::empty()
    } else if parent_dir(ms[0].path) == parent {
        seq![ms[0]] + items_of(ms.skip(1), parent)
    } else {
        items_of(ms.skip(1), parent)
    }
}

/// The local name of a directory at its level.
pub open spec fn local_name(d: Seq<char>, parent: Seq<char>) -> Seq<char> {
    if parent.len() == 0 {
        d
    } else {
        d.skip(parent.len() as int + 1)
    }
}

/// The connector drawn before an entry.
pub open spec fn connector(last: bool) -> Seq<char> {
    if last {
        seq!['\u{2514}', '\u{2500}', '\u{2500}', ' ']
    } else {
        seq!['\u{251c}', '\u{2500}', '\u{2500}', ' ']
    }
}

/// What the continuation prefix grows by under an entry.
pub open spec fn deeper(last: bool) -> Seq<char> {
    if last {
        seq![' ', ' ', ' ', ' ']
    } else {
        seq!['\u{2502}', ' ', ' ', ' ']
    }
}

/// The rendered document entries of one level; they close the level,
/// so its final entry takes the closing connector.
pub open spec fn render_items(items: Seq<MemV>, pfx: Seq<char>) -> Seq<
    Seq<char>,
>
    decreases items.len(),
{
    if items.len() == 0 {
        Seq::empty()
    } else {
        let m = items[0];
        let last = items.len() == 1;
        seq![
            pfx + connector(last) + m.path.skip(seg_start(m.path))
                + seq![' ', '-', ' '] + m.title,
        ] + render_items(items.skip(1), pfx)
    }
}

/// The rendered subtree entries of one level: each child directory's
/// line, then its own level below it, then the level's documents.
pub open spec fn render_subs(
    ms: Seq<MemV>,
    ds: Seq<Seq<char>>,
    subs: Seq<Seq<char>>,
    items_len: int,
    parent: Seq<char>,
    pfx: Seq<char>,
    fuel: nat,
) -> Seq<Seq<char>>
    decreases fuel, subs.len(), 0int,
{
    if subs.len() == 0 {
        Seq::empty()
    } else if fuel == 0 {
        Seq::empty()
    } else {
        let d = subs[0];
        let last = subs.len() == 1 && items_len == 0;
        seq![pfx + connector(last) + local_name(d, parent) + seq!['/']]
            + render_level(ms, ds, d, pfx + deeper(last), (fuel - 1) as nat)
            + render_subs(
            ms,
            ds,
            subs.skip(1),
            items_len,
            parent,
            pfx,
            fuel,
        )
    }
}

/// The rendered entries below one parent.
pub open spec fn render_level(
    ms: Seq<MemV>,
    ds: Seq<Seq<char>>,
    parent: Seq<char>,
    pfx: Seq<char>,
    fuel: nat,
) -> Seq<Seq<char>>
    decreases fuel, child_of(ds, parent).len() + 1, 1int,
{
    let subs = child_of(ds, parent);
    let items = items_of(ms, parent);
    render_subs(ms, ds, subs, items.len() as int, parent, pfx, fuel)
        + render_items(items, pfx)
}

/// The whole outline: the root name, then every level depth first.  One
/// unit of recursion budget per directory covers any nesting that can
/// occur.
pub open spec fn spec_tree(
    ms: Seq<MemV>,
    ds: Seq<Seq<char>>,
    root_name: Seq<char>,
) -> Seq<Seq<char>> {
    seq![root_name + seq!['/']] + render_level(
        ms,
        ds,
        Seq::empty(),
        Seq::empty(),
        ds.len(),
    )
}


/// The sorted directory listing of a document set.
pub fn collect_dirs(mems: &Vec<Mem>) -> (r: Vec<String>)
    ensures
        dirs_ok(r@.map_values(|d: String| d@), mems@.map_values(|m: Mem| m@)),
{
    let ghost msv = mems@.map_values(|m: Mem| m@);
    let mut out: Vec<String> = Vec::new();
    let n = mems.len();
    let mut i: usize = 0;
    while i < n
        invariant
            i <= n == msv.len(),
            msv == mems@.map_values(|m: Mem| m@),
            forall|a: int, b: int|
                0 <= a < b < out@.len() ==> lex_lt(
                    (#[trigger] out@[a])@,
                    (#[trigger] out@[b])@,
                ),
            forall|d: Seq<char>|
                #[trigger] str_views(out@).contains(d) <==> exists|j: int|
                    0 <= j < i && dir_above(d, (#[trigger] msv[j]).path),
        decreases n - i,
    {
        let prefixes = crate::store::dir_prefixes(mems[i].path.as_str());
        let np = prefixes.len();
        let mut t: usize = 0;
        while t < np
            invariant
                t <= np == prefixes@.len(),
                i < n == msv.len(),
                msv == mems@.map_values(|m: Mem| m@),
                forall|d: Seq<char>|
                    (exists|u: int|
                        0 <= u < prefixes@.len() && (
                        #[trigger] prefixes@[u])@ == d) <==> dir_above(
                        d,
                        msv[i as int].path,
                    ),
                forall|a: int, b: int|
                    0 <= a < b < out@.len() ==> lex_lt(
                        (#[trigger] out@[a])@,
                        (#[trigger] out@[b])@,
                    ),
                forall|d: Seq<char>|
                    #[trigger] str_views(out@).contains(d) <==> ((exists|
                        j: int,
                    |
                        0 <= j < i && dir_above(d, (#[trigger] msv[j]).path))
                        || exists|u: int|
                        0 <= u < t && (#[trigger] prefixes@[u])@ == d),
            decreases np - t,
        {
            let d = &prefixes[t];
            let ghost dv = d@;
            let ghost ev = str_views(out@);
            proof {
                assert(forall|d2: Seq<char>|
                    #[trigger] ev.contains(d2) <==> ((exists|j: int|
                        0 <= j < i && dir_above(
                            d2,
                            (#[trigger] msv[j]).path,
                        )) || exists|u: int|
                        0 <= u < t && (#[trigger] prefixes@[u])@ == d2));
                assert(forall|a: int, b: int|
                    0 <= a < b < ev.len() ==> lex_lt(
                        #[trigger] ev[a],
                        #[trigger] ev[b],
                    )) by {
                    assert(forall|a: int|
                        0 <= a < out@.len() ==> #[trigger] ev[a] == out@[a]@);
                }
            }
            let olen = out.len();
            let mut p: usize = 0;
            while p < olen && !str_le(d.as_str(), out[p].as_str())
                invariant
                    p <= olen == out@.len(),
                    ev == str_views(out@),
                    dv == d@,
                    forall|q: int| 0 <= q < p ==> !lex_le(dv, out@[q]@),
                decreases olen - p,
            {
                p = p + 1;
            }
            proof {
                assert forall|q: int| 0 <= q < p implies lex_lt(
                    ev[q],
                    dv,
                ) by {
                    assert(ev[q] == out@[q]@);
                    lemma_lex_le_total(dv, out@[q]@);
                    if out@[q]@ == dv {
                        crate::text::lemma_lex_le_refl(dv);
                    }
                }
            }
            let mut already = false;
            if p < olen {
                if str_eq(out[p].as_str(), d.as_str()) {
                    already = true;
                    proof {
                        assert(ev[p as int] == dv);
                        assert(ev.contains(dv));
                    }
                }
            }
            if !already {
                out.insert(p, d.clone());
                proof {
                    assert(str_views(out@) =~~= ev.insert(p as int, dv));
                    crate::store::lemma_insert_contains(ev, p as int, dv);
                    assert forall|a: int, b: int|
                        0 <= a < b < out@.len() implies lex_lt(
                            (#[trigger] out@[a])@,
                            (#[trigger] out@[b])@,
                        ) by {
                        let xa = if a < p {
                            ev[a]
                        } else if a == p {
                            dv
                        } else {
                            ev[a - 1]
                        };
                        let xb = if b < p {
                            ev[b]
                        } else if b == p {
                            dv
                        } else {
                            ev[b - 1]
                        };
                        assert(out@[a]@ == str_views(out@)[a]);
                        assert(out@[b]@ == str_views(out@)[b]);
                        assert(out@[a]@ == xa && out@[b]@ == xb);
                        if b == p {
                            assert(lex_lt(xa, dv));
                        } else if a == p && b > p {
                            assert(p < olen);
                            assert(lex_le(dv, ev[p as int]) && dv != ev[
                                p as int
                            ]);
                            if b > p + 1 {
                                lemma_lex_le_trans(
                                    dv,
                                    ev[p as int],
                                    ev[b - 1],
                                );
                                if dv == ev[b - 1] {
                                    crate::text::lemma_lex_le_antisym(
                                        dv,
                                        ev[p as int],
                                    );
                                }
                            }
                        } else if a < p && b > p {
                        }
                    }
                }
            }
            proof {
                if already {
                    assert(ev =~~= str_views(out@));
                    assert(str_views(out@).len() == out@.len());
                    assert(str_views(out@)[p as int] == ev[p as int]);
                    assert(str_views(out@)[p as int] == dv);
                    assert(str_views(out@).contains(dv));
                } else {
                    assert(str_views(out@).len() == out@.len());
                    assert(str_views(out@)[p as int] == dv);
                    assert(str_views(out@).contains(dv));
                }
                let om = str_views(out@);
                assert forall|d2: Seq<char>|
                    #[trigger] om.contains(d2) <==> ((exists|j: int|
                    0 <= j < i && dir_above(d2, (#[trigger] msv[j]).path))
                    || exists|u: int|
                    0 <= u < t + 1 && (#[trigger] prefixes@[u])@ == d2) by {
                    if om.contains(d2) {
                        if already {
                            assert(ev.contains(d2));
                        } else {
                            assert(ev.contains(d2) || d2 == dv);
                        }
                        if ev.contains(d2) {
                            if !(exists|j: int|
                                0 <= j < i && dir_above(
                                    d2,
                                    (#[trigger] msv[j]).path,
                                )) {
                                let u = choose|u: int|
                                    0 <= u < t && (#[trigger] prefixes@[u])@
                                        == d2;
                                assert(0 <= u < t + 1 && prefixes@[u]@ == d2);
                            }
                        } else {
                            assert(d2 == dv);
                            assert(prefixes@[t as int]@ == d2);
                        }
                    }
                    if exists|u: int|
                        0 <= u < t + 1 && (#[trigger] prefixes@[u])@ == d2 {
                        let u = choose|u: int|
                            0 <= u < t + 1 && (#[trigger] prefixes@[u])@
                                == d2;
                        if u == t {
                            if already {
                                assert(om.contains(dv));
                            } else {
                                assert(om.contains(dv));
                            }
                        } else {
                            assert(ev.contains(d2));
                            assert(om.contains(d2));
                        }
                    } else if exists|j: int|
                        0 <= j < i && dir_above(
                            d2,
                            (#[trigger] msv[j]).path,
                        ) {
                        assert(ev.contains(d2));
                        assert(om.contains(d2));
                    }
                }
            }
            t = t + 1;
        }
        proof {
            let om = str_views(out@);
            assert forall|d: Seq<char>|
                #[trigger] om.contains(d) <==> exists|j: int|
                    0 <= j < i + 1 && dir_above(
                        d,
                        (#[trigger] msv[j]).path,
                    ) by {
                if om.contains(d) {
                    if !(exists|j: int|
                        0 <= j < i && dir_above(
                            d,
                            (#[trigger] msv[j]).path,
                        )) {
                        let u = choose|u: int|
                            0 <= u < np && (#[trigger] prefixes@[u])@ == d;
                        assert(dir_above(d, msv[i as int].path));
                    }
                }
                if exists|j: int|
                    0 <= j < i + 1 && dir_above(d, (#[trigger] msv[j]).path) {
                    let j = choose|j: int|
                        0 <= j < i + 1 && dir_above(
                            d,
                            (#[trigger] msv[j]).path,
                        );
                    if j == i {
                        assert(exists|u: int|
                            0 <= u < prefixes@.len() && (
                            #[trigger] prefixes@[u])@ == d);
                        assert(om.contains(d));
                    } else {
                        assert(om.contains(d));
                    }
                }
            }
        }
        i = i + 1;
    }
    proof {
        let om = str_views(out@);
        assert forall|a: int, b: int|
            0 <= a < b < om.len() implies lex_lt(
                #[trigger] om[a],
                #[trigger] om[b],
            ) by {
            assert(om[a] == out@[a]@);
            assert(om[b] == out@[b]@);
        }
        assert(out@.map_values(|d: String| d@) =~~= om);
    }
    out
}


/// Every entry of a child listing is a direct child.
pub proof fn lemma_child_of_elems(ds: Seq<Seq<char>>, parent: Seq<char>)
    ensures
        forall|t: int|
            0 <= t < child_of(ds, parent).len() ==> is_child_dir(
                #[trigger] child_of(ds, parent)[t],
                parent,
            ),
    decreases ds.len(),
{
    if ds.len() > 0 {
        lemma_child_of_elems(ds.skip(1), parent);
        let rest = child_of(ds.skip(1), parent);
        if is_child_dir(ds[0], parent) {
            assert(child_of(ds, parent) == seq![ds[0]] + rest);
            assert forall|t: int|
                0 <= t < child_of(ds, parent).len() implies is_child_dir(
                    #[trigger] child_of(ds, parent)[t],
                    parent,
                ) by {
                if t == 0 {
                    assert(child_of(ds, parent)[0] == ds[0]);
                } else {
                    assert(child_of(ds, parent)[t] == rest[t - 1]);
                }
            }
        }
    }
}

/// The direct child directories of `parent`, in listing order.
fn child_dirs(ds: &Vec<String>, parent: &str) -> (r: Vec<String>)
    ensures
        r@.map_values(|x: String| x@) == child_of(
            ds@.map_values(|x: String| x@),
            parent@,
        ),
{
    proof {
        reveal_strlit("/");
    }
    let ghost dsv = ds@.map_values(|x: String| x@);
    let mut out: Vec<String> = Vec::new();
    let n = ds.len();
    let mut i: usize = 0;
    let plen = parent.unicode_len();
    proof {
        assert(dsv.skip(0) =~= dsv);
    }
    while i < n
        invariant
            i <= n == dsv.len(),
            dsv == ds@.map_values(|x: String| x@),
            plen == parent@.len(),
            child_of(dsv, parent@) == out@.map_values(|x: String| x@)
                + child_of(dsv.skip(i as int), parent@),
        decreases n - i,
    {
        let d = &ds[i];
        let dlen = d.as_str().unicode_len();
        proof {
            assert(dsv.skip(i as int)[0] == dsv[i as int]);
            assert(dsv.skip(i as int).skip(1) =~= dsv.skip(i as int + 1));
        }
        let mut child = false;
        if plen == 0 {
            if dlen > 0 {
                let mut j: usize = 0;
                let mut clean = true;
                while j < dlen
                    invariant
                        j <= dlen == d@.len(),
                        clean == (forall|q: int| 0 <= q < j ==> d@[q] != '/'),
                    decreases dlen - j,
                {
                    if d.as_str().get_char(j) == '/' {
                        clean = false;
                        assert(d@[j as int] == '/');
                        j = dlen;
                    } else {
                        j = j + 1;
                    }
                }
                child = clean;
            }
            proof {
                assert(child == is_child_dir(dsv[i as int], parent@));
            }
        } else {
            let mut probe = parent.to_owned();
            probe.append("/");
            proof {
                assert(probe@ =~= parent@ + seq!['/']);
            }
            if str_starts_with(d.as_str(), probe.as_str()) {
                proof {
                    assert(d@.take(probe@.len() as int) == probe@);
                    assert(d@.take(plen as int) =~= d@.take(
                        probe@.len() as int,
                    ).take(plen as int));
                    assert(probe@.take(plen as int) =~= parent@);
                    assert(probe@[plen as int] == '/');
                    assert(d@[plen as int] == d@.take(probe@.len() as int)[
                        plen as int
                    ]);
                    assert(dir_above(parent@, d@));
                }
                let mut j = plen + 1;
                let mut clean = true;
                while j < dlen
                    invariant
                        plen + 1 <= j <= dlen || j == plen + 1,
                        j >= plen + 1,
                        j <= dlen || j == plen + 1,
                        dlen == d@.len(),
                        clean == (forall|q: int|
                            plen + 1 <= q < j ==> d@[q] != '/'),
                    decreases dlen - j,
                {
                    if d.as_str().get_char(j) == '/' {
                        clean = false;
                        assert(d@[j as int] == '/');
                        j = dlen;
                    } else {
                        j = j + 1;
                    }
                }
                child = clean;
            } else {
                proof {
                    if dir_above(parent@, d@) {
                        assert(d@.take(probe@.len() as int) =~= probe@);
                    }
                }
            }
            proof {
                assert(child == is_child_dir(dsv[i as int], parent@));
            }
        }
        if child {
            let ghost prevmap = out@.map_values(|x: String| x@);
            out.push(d.clone());
            proof {
                assert(out@.map_values(|x: String| x@) =~~= prevmap.push(
                    dsv[i as int],
                ));
                assert(prevmap.push(dsv[i as int]) + child_of(
                    dsv.skip(i as int + 1),
                    parent@,
                ) =~~= prevmap + (seq![dsv[i as int]] + child_of(
                    dsv.skip(i as int + 1),
                    parent@,
                )));
            }
        }
        i = i + 1;
    }
    proof {
        assert(dsv.skip(n as int) =~= Seq::<Seq<char>>::empty());
        assert(out@.map_values(|x: String| x@) =~= child_of(dsv, parent@));
    }
    out
}

/// Indices of the documents sitting directly under `parent`.
fn item_indices(mems: &Vec<Mem>, parent: &str) -> (r: Vec<usize>)
    ensures
        r@.map_values(|u: usize| mems@.map_values(|m: Mem| m@)[u as int])
            == items_of(mems@.map_values(|m: Mem| m@), parent@),
        forall|t: int| 0 <= t < r@.len() ==> (#[trigger] r@[t]) < mems@.len(),
{
    let ghost msv = mems@.map_values(|m: Mem| m@);
    let mut out: Vec<usize> = Vec::new();
    let n = mems.len();
    let mut i: usize = 0;
    proof {
        assert(msv.skip(0) =~= msv);
    }
    while i < n
        invariant
            i <= n == msv.len(),
            msv == mems@.map_values(|m: Mem| m@),
            items_of(msv, parent@) == out@.map_values(
                |u: usize| msv[u as int],
            ) + items_of(msv.skip(i as int), parent@),
            forall|t: int| 0 <= t < out@.len() ==> (#[trigger] out@[t]) < n,
        decreases n - i,
    {
        proof {
            assert(msv.skip(i as int)[0] == msv[i as int]);
            assert(msv.skip(i as int).skip(1) =~= msv.skip(i as int + 1));
        }
        let st = crate::text::seg_start_of(mems[i].path.as_str());
        let pd = if st > 0 {
            mems[i].path.as_str().substring_char(0, st - 1)
        } else {
            mems[i].path.as_str().substring_char(0, 0)
        };
        proof {
            assert(pd@ =~= parent_dir(msv[i as int].path));
        }
        if str_eq(pd, parent) {
            let ghost prevmap = out@.map_values(|u: usize| msv[u as int]);
            out.push(i);
            proof {
                assert(out@.map_values(|u: usize| msv[u as int])
                    =~~= prevmap.push(msv[i as int]));
                assert(prevmap.push(msv[i as int]) + items_of(
                    msv.skip(i as int + 1),
                    parent@,
                ) =~~= prevmap + (seq![msv[i as int]] + items_of(
                    msv.skip(i as int + 1),
                    parent@,
                )));
            }
        }
        i = i + 1;
    }
    proof {
        assert(msv.skip(n as int) =~= Seq::<MemV>::empty());
        assert(out@.map_values(|u: usize| msv[u as int]) =~= items_of(
            msv,
            parent@,
        ));
    }
    out
}


/// Render the subtree entries from the `u`-th child on.
#[verifier::rlimit(60)]
fn walk_subs(
    mems: &Vec<Mem>,
    ds: &Vec<String>,
    subs: &Vec<String>,
    u: usize,
    items_len: usize,
    parent: &str,
    pfx: &str,
    fuel: usize,
    out: &mut Vec<String>,
)
    requires
        u <= subs@.len(),
        subs@.map_values(|x: String| x@) == child_of(
            ds@.map_values(|x: String| x@),
            parent@,
        ),
    ensures
        final(out)@.map_values(|x: String| x@) == old(out)@.map_values(
            |x: String| x@,
        ) + render_subs(
            mems@.map_values(|m: Mem| m@),
            ds@.map_values(|x: String| x@),
            subs@.map_values(|x: String| x@).skip(u as int),
            items_len as int,
            parent@,
            pfx@,
            fuel as nat,
        ),
    decreases fuel, subs@.len() - u, 0int,
{
    proof {
        reveal_strlit("\u{2514}\u{2500}\u{2500} ");
        reveal_strlit("\u{251c}\u{2500}\u{2500} ");
        reveal_strlit("    ");
        reveal_strlit("\u{2502}   ");
        reveal_strlit("/");
    }
    let ghost msv = mems@.map_values(|m: Mem| m@);
    let ghost dsv = ds@.map_values(|x: String| x@);
    let ghost sv = subs@.map_values(|x: String| x@);
    if u == subs.len() {
        proof {
            assert(sv.skip(u as int) =~= Seq::<Seq<char>>::empty());
            assert(out@.map_values(|x: String| x@) + Seq::<
                Seq<char>,
            >::empty() =~~= out@.map_values(|x: String| x@));
        }
        return ;
    }
    if fuel == 0 {
        proof {
            assert(sv.skip(u as int).len() > 0);
            assert(out@.map_values(|x: String| x@) + Seq::<
                Seq<char>,
            >::empty() =~~= out@.map_values(|x: String| x@));
        }
        return ;
    }
    proof {
        lemma_child_of_elems(dsv, parent@);
        assert(is_child_dir(sv[u as int], parent@));
        assert(sv.skip(u as int)[0] == sv[u as int]);
    }
    let d = &subs[u];
    let last = u + 1 == subs.len() && items_len == 0;
    let mut line = pfx.to_owned();
    if last {
        line.append("\u{2514}\u{2500}\u{2500} ");
    } else {
        line.append("\u{251c}\u{2500}\u{2500} ");
    }
    let plen = parent.unicode_len();
    let dlen = d.as_str().unicode_len();
    if plen == 0 {
        line.append(d.as_str());
    } else {
        line.append(d.as_str().substring_char(plen + 1, dlen));
    }
    line.append("/");
    proof {
        assert(line@ =~= pfx@ + connector(last) + local_name(
            sv[u as int],
            parent@,
        ) + seq!['/']);
    }
    let ghost before = out@.map_values(|x: String| x@);
    out.push(line);
    proof {
        assert(out@.map_values(|x: String| x@) =~~= before.push(
            pfx@ + connector(last) + local_name(sv[u as int], parent@)
                + seq!['/'],
        ));
    }
    let mut deeper_pfx = pfx.to_owned();
    if last {
        deeper_pfx.append("    ");
    } else {
        deeper_pfx.append("\u{2502}   ");
    }
    proof {
        assert(deeper_pfx@ =~= pfx@ + deeper(last));
    }
    let ghost mid0 = out@.map_values(|x: String| x@);
    walk_level(mems, ds, d.as_str(), deeper_pfx.as_str(), fuel - 1, out);
    let ghost mid1 = out@.map_values(|x: String| x@);
    walk_subs(mems, ds, subs, u + 1, items_len, parent, pfx, fuel, out);
    proof {
        let lvl = render_level(
            msv,
            dsv,
            sv[u as int],
            pfx@ + deeper(last),
            (fuel - 1) as nat,
        );
        let tail = render_subs(
            msv,
            dsv,
            sv.skip(u as int + 1),
            items_len as int,
            parent@,
            pfx@,
            fuel as nat,
        );
        assert(sv.skip(u as int).skip(1) =~= sv.skip(u as int + 1));
        assert(render_subs(
            msv,
            dsv,
            sv.skip(u as int),
            items_len as int,
            parent@,
            pfx@,
            fuel as nat,
        ) == seq![
            pfx@ + connector(last) + local_name(sv[u as int], parent@)
                + seq!['/'],
        ] + lvl + tail);
        assert(out@.map_values(|x: String| x@) =~~= before + (seq![
            pfx@ + connector(last) + local_name(sv[u as int], parent@)
                + seq!['/'],
        ] + lvl + tail));
    }
}

/// Render everything below one parent: its child subtrees, then its
/// own documents.
#[verifier::rlimit(60)]
fn walk_level(
    mems: &Vec<Mem>,
    ds: &Vec<String>,
    parent: &str,
    pfx: &str,
    fuel: usize,
    out: &mut Vec<String>,
)
    ensures
        final(out)@.map_values(|x: String| x@) == old(out)@.map_values(
            |x: String| x@,
        ) + render_level(
            mems@.map_values(|m: Mem| m@),
            ds@.map_values(|x: String| x@),
            parent@,
            pfx@,
            fuel as nat,
        ),
    decreases fuel, child_of(ds@.map_values(|x: String| x@), parent@).len()
        + 1, 1int,
{
    proof {
        reveal_strlit("\u{2514}\u{2500}\u{2500} ");
        reveal_strlit("\u{251c}\u{2500}\u{2500} ");
        reveal_strlit(" - ");
    }
    let ghost msv = mems@.map_values(|m: Mem| m@);
    let ghost dsv = ds@.map_values(|x: String| x@);
    let subs = child_dirs(ds, parent);
    let idxs = item_indices(mems, parent);
    let ghost items = items_of(msv, parent@);
    walk_subs(mems, ds, &subs, 0, idxs.len(), parent, pfx, fuel, out);
    proof {
        assert(subs@.map_values(|x: String| x@).skip(0) =~= subs@.map_values(
            |x: String| x@,
        ));
        assert(items.skip(0) =~= items);
    }
    let ghost after_subs = out@.map_values(|x: String| x@);
    proof {
        lemma_render_items_len(items, pfx@);
        assert(render_items(items, pfx@).take(0) =~~= Seq::<
            Seq<char>,
        >::empty());
        assert(after_subs + render_items(items, pfx@).take(0)
            =~~= after_subs);
    }
    let ni = idxs.len();
    let mut v: usize = 0;
    while v < ni
        invariant
            v <= ni == items.len(),
            items == items_of(msv, parent@),
            msv == mems@.map_values(|m: Mem| m@),
            forall|t: int| 0 <= t < idxs@.len() ==> (#[trigger] idxs@[t])
                < mems@.len(),
            ni == idxs@.len(),
            idxs@.map_values(|u2: usize| msv[u2 as int]) == items,
            out@.map_values(|x: String| x@) == after_subs + render_items(
                items,
                pfx@,
            ).take(v as int),
            render_items(items, pfx@).len() == items.len(),
        decreases ni - v,
    {
        proof {
            lemma_render_items_len(items.skip(v as int), pfx@);
            lemma_render_items_index(items, pfx@, v as int);
        }
        let m = &mems[idxs[v]];
        proof {
            assert(m@ == items[v as int]);
        }
        let last = v + 1 == ni;
        let mut line = pfx.to_owned();
        if last {
            line.append("\u{2514}\u{2500}\u{2500} ");
        } else {
            line.append("\u{251c}\u{2500}\u{2500} ");
        }
        let st = crate::text::seg_start_of(m.path.as_str());
        let n2 = m.path.as_str().unicode_len();
        line.append(m.path.as_str().substring_char(st, n2));
        line.append(" - ");
        line.append(m.title.as_str());
        proof {
            assert(line@ =~= pfx@ + connector(last) + items[v as int].path
                .skip(seg_start(items[v as int].path)) + seq![' ', '-', ' ']
                + items[v as int].title);
        }
        let ghost before = out@.map_values(|x: String| x@);
        out.push(line);
        proof {
            assert(out@.map_values(|x: String| x@) =~~= before.push(
                render_items(items, pfx@)[v as int],
            ));
            assert(before.push(render_items(items, pfx@)[v as int])
                =~~= after_subs + render_items(items, pfx@).take(
                v as int + 1,
            ));
        }
        v = v + 1;
    }
    proof {
        lemma_render_items_len(items, pfx@);
        assert(render_items(items, pfx@).take(ni as int) =~~= render_items(
            items,
            pfx@,
        ));
    }
}

/// Each document entry renders to one line.
pub proof fn lemma_render_items_len(items: Seq<MemV>, pfx: Seq<char>)
    ensures
        render_items(items, pfx).len() == items.len(),
    decreases items.len(),
{
    if items.len() > 0 {
        lemma_render_items_len(items.skip(1), pfx);
    }
}

/// The line a document entry renders to.
pub proof fn lemma_render_items_index(
    items: Seq<MemV>,
    pfx: Seq<char>,
    v: int,
)
    requires
        0 <= v < items.len(),
    ensures
        render_items(items, pfx)[v] == pfx + connector(v == items.len() - 1)
            + items[v].path.skip(seg_start(items[v].path)) + seq![' ', '-', ' ']
            + items[v].title,
    decreases v,
{
    lemma_render_items_len(items, pfx);
    lemma_render_items_len(items.skip(1), pfx);
    if v == 0 {
    } else {
        lemma_render_items_index(items.skip(1), pfx, v - 1);
        assert(items.skip(1)[v - 1] == items[v]);
    }
}

/// The whole outline of a document set: the root name's line, then the
/// nested levels depth first.  The directory listing the outline is
/// drawn from is pinned by `dirs_ok`.
pub fn render_tree(mems: &Vec<Mem>, root_name: &str) -> (r: Vec<String>)
    ensures
        exists|ds: Seq<Seq<char>>|
            #[trigger] dirs_ok(ds, mem_views(mems@)) && crate::text::str_views(
                r@,
            ) == spec_tree(mem_views(mems@), ds, root_name@),
{
    proof {
        reveal_strlit("/");
        reveal_strlit("");
    }
    let ds = collect_dirs(mems);
    let ghost dsv = ds@.map_values(|x: String| x@);
    let mut out: Vec<String> = Vec::new();
    let mut rootline = root_name.to_owned();
    rootline.append("/");
    out.push(rootline);
    proof {
        assert(out@.map_values(|x: String| x@) =~~= seq![
            root_name@ + seq!['/'],
        ]);
    }
    let empty_str = "";
    proof {
        assert(empty_str@ =~= Seq::<char>::empty());
    }
    let fuel = ds.len();
    walk_level(mems, &ds, empty_str, empty_str, fuel, &mut out);
    proof {
        assert(crate::text::str_views(out@) =~~= spec_tree(
            mem_views(mems@),
            dsv,
            root_name@,
        ));
        assert(dirs_ok(dsv, mem_views(mems@)));
    }
    out
}

} // verus!
