//! The pixel types of the `rgb` crate and the calls made on them.

use rgb::{Rgb, Rgba, RGB8, RGBA8};
use vstd::prelude::*;

verus! {

/// `rgb::Rgb`, with its three public channels.
#[verifier::external_type_specification]
pub struct ExRgb<T>(Rgb<T>);

/// `rgb::Rgba`, with its four public channels.
#[verifier::external_type_specification]
pub struct ExRgba<T, A>(Rgba<T, A>);

/// `rgb::Rgb::new` stores its arguments as the red, green and blue channel.
pub assume_specification<T: Copy>[ Rgb::<T>::new ](red: T, green: T, blue: T) -> (c: Rgb<T>)
    ensures
        c == (Rgb { r: red, g: green, b: blue }),
;

/// `rgb::Rgba::new` stores its arguments as the red, green, blue and alpha
/// channel.
pub assume_specification<T: Copy>[ Rgba::<T>::new ](red: T, green: T, blue: T, alpha: T) -> (p:
    Rgba<T>)
    ensures
        p == (Rgba { r: red, g: green, b: blue, a: alpha }),
;

/// `rgb::Rgb::with_alpha` clones the three color channels and stores its
/// argument as the alpha channel.
pub assume_specification<T: Clone>[ Rgb::<T>::with_alpha ](c: &Rgb<T>, a: T) -> (p: Rgba<T>)
    ensures
        call_ensures(T::clone, (&c.r,), p.r),
        call_ensures(T::clone, (&c.g,), p.g),
        call_ensures(T::clone, (&c.b,), p.b),
        p.a == a,
;

/// The derived `clone` of `rgb::Rgb` clones each channel.
pub assume_specification<T: Clone>[ <Rgb<T> as Clone>::clone ](c: &Rgb<T>) -> (d: Rgb<T>)
    ensures
        call_ensures(T::clone, (&c.r,), d.r),
        call_ensures(T::clone, (&c.g,), d.g),
        call_ensures(T::clone, (&c.b,), d.b),
;

/// The derived `clone` of `rgb::Rgba` clones each channel.
pub assume_specification<T: Clone, A: Clone>[ <Rgba<T, A> as Clone>::clone ](p: &Rgba<T, A>) -> (q:
    Rgba<T, A>)
    ensures
        call_ensures(T::clone, (&p.r,), q.r),
        call_ensures(T::clone, (&p.g,), q.g),
        call_ensures(T::clone, (&p.b,), q.b),
        call_ensures(A::clone, (&p.a,), q.a),
;

/// The pixel of a place that nothing was painted on.
pub open spec fn transparent() -> RGBA8 {
    Rgba { r: 0, g: 0, b: 0, a: 0 }
}

/// The pixel that `color` leaves where it is painted.
pub open spec fn opaque(color: RGB8) -> RGBA8 {
    Rgba { r: color.r, g: color.g, b: color.b, a: 255 }
}

/// Whether two pixels agree in every channel.
pub fn same_pixel(a: RGBA8, b: RGBA8) -> (same: bool)
    ensures
        same == (a == b),
{
    a.r == b.r && a.g == b.g && a.b == b.b && a.a == b.a
}

} // verus!
