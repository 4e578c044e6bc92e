//! Resolution of link rows into edges. A link names its destination by
//! title; the title is matched against the vertex table, and a match that is
//! a redirect is replaced by the redirect's target, so that no redirect
//! vertex ever becomes an edge endpoint. Links whose title has no vertex,
//! and redirects without a recorded target, are dropped.

use vstd::prelude::*;
use vstd::hash_map::StringHashMap;

use crate::{Edge, Vertex, WPPageLink};
use crate::redirect::RedirectMap;

verus! {

/// Titles are unique over the vertex table.
pub open spec fn unique_titles(vs: Seq<Vertex>) -> bool {
    forall|i: int, j: int|
        0 <= i < vs.len() && 0 <= j < vs.len() && i != j ==> (#[trigger] vs[i]).title@ != (
        #[trigger] vs[j]).title@
}

/// The id a matched vertex stands for: itself when it is a real article,
/// its redirect target when it is a redirect, nothing when the redirect
/// has no recorded target.
pub open spec fn vertex_resolution(v: Vertex, rm: RedirectMap) -> Option<u32> {
    if !v.is_redirect {
        Some(v.id)
    } else {
        rm.spec_get(v.id)
    }
}

/// The id a destination title resolves to, if any.
pub open spec fn spec_resolved(vs: Seq<Vertex>, rm: RedirectMap, t: Seq<char>) -> Option<u32> {
    if exists|i: int| 0 <= i < vs.len() && (#[trigger] vs[i]).title@ == t {
        let i = choose|i: int| 0 <= i < vs.len() && (#[trigger] vs[i]).title@ == t;
        vertex_resolution(vs[i], rm)
    } else {
        None
    }
}

/// The title-to-id map a batch lookup builds from the matched vertexes.
pub open spec fn spec_title_map(vs: Seq<Vertex>, rm: RedirectMap) -> Map<Seq<char>, u32>
    decreases vs.len(),
{
    if vs.len() == 0 {
        Map::<Seq<char>, u32>::empty()
    } else {
        let m = spec_title_map(vs.drop_last(), rm);
        match vertex_resolution(vs.last(), rm) {
            Some(d) => m.insert(vs.last().title@, d),
            None => m,
        }
    }
}

/// The redirect vertexes a batch drops for want of a recorded target, as
/// `(id, title)` rows.
pub open spec fn spec_failures(vs: Seq<Vertex>, rm: RedirectMap) -> Seq<(u32, Seq<char>)>
    decreases vs.len(),
{
    if vs.len() == 0 {
        Seq::<(u32, Seq<char>)>::empty()
    } else {
        let rest = spec_failures(vs.drop_last(), rm);
        if vs.last().is_redirect && rm.spec_get(vs.last().id) is None {
            rest.push((vs.last().id, vs.last().title@))
        } else {
            rest
        }
    }
}

/// The edges a batch of links resolves to, in order, dropped rows omitted.
pub open spec fn resolved_edges(q: Seq<WPPageLink>, vs: Seq<Vertex>, rm: RedirectMap) -> Seq<Edge>
    decreases q.len(),
{
    if q.len() == 0 {
        Seq::<Edge>::empty()
    } else {
        let rest = resolved_edges(q.drop_last(), vs, rm);
        match spec_resolved(vs, rm, q.last().dest_page_title@) {
            Some(d) => rest.push(
                Edge { source_vertex_id: q.last().source_page_id, dest_vertex_id: d },
            ),
            None => rest,
        }
    }
}

/// The built title map answers exactly the resolvable titles, with the
/// resolved id.
pub proof fn lemma_title_map_resolves(vs: Seq<Vertex>, rm: RedirectMap, t: Seq<char>)
    requires
        unique_titles(vs),
    ensures
        spec_title_map(vs, rm).contains_key(t) <==> spec_resolved(vs, rm, t) is Some,
        spec_title_map(vs, rm).contains_key(t) ==> spec_title_map(vs, rm)[t] == spec_resolved(
            vs,
            rm,
            t,
        ).unwrap(),
    decreases vs.len(),
{
    if vs.len() > 0 {
        assert(unique_titles(vs.drop_last())) by {
            assert forall|i: int, j: int|
                0 <= i < vs.drop_last().len() && 0 <= j < vs.drop_last().len() && i != j implies (
            #[trigger] vs.drop_last()[i]).title@ != (#[trigger] vs.drop_last()[j]).title@ by {
                assert(vs.drop_last()[i] == vs[i]);
                assert(vs.drop_last()[j] == vs[j]);
            }
        }
        lemma_title_map_resolves(vs.drop_last(), rm, t);
        let last = vs.last();
        if last.title@ == t {
            assert(vs[vs.len() - 1].title@ == t);
            if exists|i: int| 0 <= i < vs.len() && (#[trigger] vs[i]).title@ == t {
                let i = choose|i: int| 0 <= i < vs.len() && (#[trigger] vs[i]).title@ == t;
                assert(i == vs.len() - 1);
            }
            assert(!(exists|i: int|
                0 <= i < vs.drop_last().len() && (#[trigger] vs.drop_last()[i]).title@ == t)) by {
                if exists|i: int|
                    0 <= i < vs.drop_last().len() && (#[trigger] vs.drop_last()[i]).title@ == t {
                    let i = choose|i: int|
                        0 <= i < vs.drop_last().len() && (#[trigger] vs.drop_last()[i]).title@
                            == t;
                    assert(vs[i].title@ == t);
                    assert(vs[i].title@ != vs[vs.len() - 1].title@);
                }
            }
            assert(!spec_title_map(vs.drop_last(), rm).contains_key(t));
        } else {
            if exists|i: int| 0 <= i < vs.len() && (#[trigger] vs[i]).title@ == t {
                let i = choose|i: int| 0 <= i < vs.len() && (#[trigger] vs[i]).title@ == t;
                assert(i < vs.len() - 1);
                assert(vs.drop_last()[i].title@ == t);
                let i2 = choose|i2: int|
                    0 <= i2 < vs.drop_last().len() && (#[trigger] vs.drop_last()[i2]).title@ == t;
                assert(i2 == i);
                assert(vs.drop_last()[i2] == vs[i]);
            }
            if exists|i: int|
                0 <= i < vs.drop_last().len() && (#[trigger] vs.drop_last()[i]).title@ == t {
                let i = choose|i: int|
                    0 <= i < vs.drop_last().len() && (#[trigger] vs.drop_last()[i]).title@ == t;
                assert(vs[i].title@ == t);
            }
        }
    }
}

/// Law: a link whose destination title names a redirect resolves to the
/// redirect's recorded target, never to the redirect vertex itself; a
/// redirect without a recorded target resolves to nothing and the link is
/// dropped.
pub proof fn lemma_redirects_rewritten(vs: Seq<Vertex>, rm: RedirectMap, t: Seq<char>, i: int)
    requires
        unique_titles(vs),
        0 <= i < vs.len(),
        vs[i].title@ == t,
        vs[i].is_redirect,
    ensures
        spec_resolved(vs, rm, t) == rm.spec_get(vs[i].id),
{
    assert(exists|j: int| 0 <= j < vs.len() && (#[trigger] vs[j]).title@ == t) by {
        assert(vs[i].title@ == t);
    }
    let j = choose|j: int| 0 <= j < vs.len() && (#[trigger] vs[j]).title@ == t;
    assert(j == i);
}

/// What one batch lookup hands back: the resolved edges, the title map for
/// the caller's cache, and the dropped redirect rows.
pub struct BatchLookup {
    pub edges: Vec<Edge>,
    pub title_map: StringHashMap<u32>,
    pub redirect_failures: Vec<Vertex>,
}

/// Resolves one batch of links against the matched vertex rows and the
/// redirect map.
pub fn lookup_batch(q: &Vec<WPPageLink>, vertexes: &Vec<Vertex>, redirects: &RedirectMap) -> (r:
    BatchLookup)
    requires
        unique_titles(vertexes@),
    ensures
        r.title_map@ == spec_title_map(vertexes@, *redirects),
        r.edges@ == resolved_edges(q@, vertexes@, *redirects),
        r.redirect_failures@.map_values(|v: Vertex| (v.id, v.title@)) == spec_failures(
            vertexes@,
            *redirects,
        ),
{
    let mut title_map = StringHashMap::<u32>::new();
    let mut redirect_failures: Vec<Vertex> = Vec::new();
    let n = vertexes.len();
    let mut i: usize = 0;
    while i < n
        invariant
            n == vertexes@.len(),
            i <= n,
            title_map@ == spec_title_map(vertexes@.take(i as int), *redirects),
            redirect_failures@.map_values(|v: Vertex| (v.id, v.title@)) == spec_failures(
                vertexes@.take(i as int),
                *redirects,
            ),
        decreases n - i,
    {
        let v = &vertexes[i];
        let ghost pre_map = title_map@;
        let ghost pre_fail = redirect_failures@;
        proof {
            assert(vertexes@.take(i + 1).drop_last() =~= vertexes@.take(i as int));
            assert(vertexes@.take(i + 1).last() == vertexes@[i as int]);
        }
        if v.is_redirect {
            match redirects.get(v.id) {
                Some(dest) => {
                    title_map.insert(v.title.clone(), dest);
                },
                None => {
                    redirect_failures.push(v.clone());
                    proof {
                        assert(redirect_failures@.map_values(|vx: Vertex| (vx.id, vx.title@))
                            =~= pre_fail.map_values(|vx: Vertex| (vx.id, vx.title@)).push(
                            (vertexes@[i as int].id, vertexes@[i as int].title@),
                        ));
                    }
                },
            }
        } else {
            title_map.insert(v.title.clone(), v.id);
        }
        i += 1;
    }
    proof {
        assert(vertexes@.take(n as int) =~= vertexes@);
    }
    let mut edges: Vec<Edge> = Vec::new();
    let m = q.len();
    let mut k: usize = 0;
    while k < m
        invariant
            unique_titles(vertexes@),
            title_map@ == spec_title_map(vertexes@, *redirects),
            m == q@.len(),
            k <= m,
            edges@ == resolved_edges(q@.take(k as int), vertexes@, *redirects),
        decreases m - k,
    {
        let pl = &q[k];
        proof {
            assert(q@.take(k + 1).drop_last() =~= q@.take(k as int));
            assert(q@.take(k + 1).last() == q@[k as int]);
            lemma_title_map_resolves(vertexes@, *redirects, pl.dest_page_title@);
        }
        match title_map.get(pl.dest_page_title.as_str()) {
            Some(dest) => {
                edges.push(Edge { source_vertex_id: pl.source_page_id, dest_vertex_id: *dest });
            },
            None => {},
        }
        k += 1;
    }
    proof {
        assert(q@.take(m as int) =~= q@);
    }
    BatchLookup { edges, title_map, redirect_failures }
}

} // verus!