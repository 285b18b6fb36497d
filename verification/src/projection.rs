//! Projections of a locked value, chained: a mapped guard that is mapped
//! again picks, from the value, what the new projection picks from what the
//! old one picked.
use vstd::prelude::*;

verus! {

/// `p` may be applied to any value, and what it picks from `t` is what `h`
/// picks from what `f` picks from `t`.
pub open spec fn chains_ref<T, U, V, F, H, P>(p: P, f: F, h: H) -> bool where
    F: Fn(&T) -> &U,
    H: Fn(&U) -> &V,
    P: Fn(&T) -> &V,
 {
    &&& forall|t: &T| #[trigger] p.requires((t,))
    &&& forall|t: &T, v: &V| #[trigger]
        p.ensures((t,), v) ==> exists|u: &U| f.ensures((t,), u) && h.ensures((u,), v)
}

/// As `chains_ref`, where `h` and so `p` may pick nothing.
pub open spec fn chains_ref_opt<T, U, V, F, H, P>(p: P, f: F, h: H) -> bool where
    F: Fn(&T) -> &U,
    H: Fn(&U) -> Option<&V>,
    P: Fn(&T) -> Option<&V>,
 {
    &&& forall|t: &T| #[trigger] p.requires((t,))
    &&& forall|t: &T, v: Option<&V>| #[trigger]
        p.ensures((t,), v) ==> exists|u: &U| f.ensures((t,), u) && h.ensures((u,), v)
}

fn read_projection<T, V, P: Fn(&T) -> &V>(p: P) -> (r: P)
    ensures
        r == p,
{
    p
}

fn read_projection_opt<T, V, P: Fn(&T) -> Option<&V>>(p: P) -> (r: P)
    ensures
        r == p,
{
    p
}

fn write_projection<T, V, P: Fn(&mut T) -> &mut V>(p: P) -> (r: P)
    ensures
        r == p,
{
    p
}

fn write_projection_opt<T, V, P: Fn(&mut T) -> Option<&mut V>>(p: P) -> (r: P)
    ensures
        r == p,
{
    p
}

/// The projection that applies `f`, then `h`.
pub(crate) fn chain_ref<T, U: 'static, V, F, H>(f: F, h: H) -> (p: impl Fn(&T) -> &V) where
    F: Fn(&T) -> &U,
    H: Fn(&U) -> &V,

    requires
        forall|t: &T| #[trigger] f.requires((t,)),
        forall|u: &U| #[trigger] h.requires((u,)),
    ensures
        chains_ref(p, f, h),
{
    read_projection(move |t: &T| -> (v: &V)
        ensures exists|u: &U| f.ensures((t,), u) && h.ensures((u,), v),
    {
        let u = f(t);
        h(u)
    })
}

/// The projection that applies `f`, then the partial `h`.
pub(crate) fn chain_ref_opt<T, U: 'static, V, F, H>(f: F, h: H) -> (p: impl Fn(&T) -> Option<&V>) where
    F: Fn(&T) -> &U,
    H: Fn(&U) -> Option<&V>,

    requires
        forall|t: &T| #[trigger] f.requires((t,)),
        forall|u: &U| #[trigger] h.requires((u,)),
    ensures
        chains_ref_opt(p, f, h),
{
    read_projection_opt(move |t: &T| -> (v: Option<&V>)
        ensures exists|u: &U| f.ensures((t,), u) && h.ensures((u,), v),
    {
        let u = f(t);
        h(u)
    })
}

/// The projection that applies `f`, then `h`, for writing: `f` is applied to
/// a borrow of the value that ends with it, `h` to a borrow of what `f` picked
/// that ends with that.
pub(crate) fn chain_mut<T, U: 'static, V, F, H>(f: F, h: H) -> (p: impl Fn(&mut T) -> &mut V) where
    F: Fn(&mut T) -> &mut U,
    H: Fn(&mut U) -> &mut V,

    requires
        forall|t: &mut T| #[trigger] f.requires((t,)),
        forall|u: &mut U| #[trigger] h.requires((u,)),
    ensures
        forall|t: &mut T| #[trigger] p.requires((t,)),
        forall|t: &mut T, v: &mut V| #[trigger]
            p.ensures((t,), v) ==> exists|x: &mut T, u: &mut U, y: &mut U|
                *x == *t && *final(x) == *final(t) && f.ensures((x,), u) && *y == *u && *final(y)
                    == *final(u) && h.ensures((y,), v),
{
    write_projection(move |t: &mut T| -> (v: &mut V)
        ensures exists|x: &mut T, u: &mut U, y: &mut U| *x == *old(t) && *final(x) == *final(t) && f.ensures((x,), u) && *y == *u && *final(y) == *final(u) && h.ensures((y,), v),
    {
        let u = f(t);
        h(u)
    })
}

/// The projection that applies `f`, then the partial `h`, for writing.
pub(crate) fn chain_mut_opt<T, U: 'static, V, F, H>(f: F, h: H) -> (p: impl Fn(&mut T) -> Option<
    &mut V,
>) where
    F: Fn(&mut T) -> &mut U,
    H: Fn(&mut U) -> Option<&mut V>,

    requires
        forall|t: &mut T| #[trigger] f.requires((t,)),
        forall|u: &mut U| #[trigger] h.requires((u,)),
    ensures
        forall|t: &mut T| #[trigger] p.requires((t,)),
        forall|t: &mut T, v: Option<&mut V>| #[trigger]
            p.ensures((t,), v) ==> exists|x: &mut T, u: &mut U, y: &mut U|
                *x == *t && *final(x) == *final(t) && f.ensures((x,), u) && *y == *u && *final(y)
                    == *final(u) && h.ensures((y,), v),
{
    write_projection_opt(move |t: &mut T| -> (v: Option<&mut V>)
        ensures exists|x: &mut T, u: &mut U, y: &mut U| *x == *old(t) && *final(x) == *final(t) && f.ensures((x,), u) && *y == *u && *final(y) == *final(u) && h.ensures((y,), v),
    {
        let u = f(t);
        h(u)
    })
}

} // verus!
