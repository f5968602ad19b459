//! Where the CS counter sits on the screen, and which values it can show.
use vstd::prelude::*;
use crate::binary64::{
    lemma_round_facts, lemma_round_whole,f64_round, f64_trunc, lemma_pow2_positive, lemma_rne_div_below, pow2, round_f64, two52, two53};
use crate::types::CsRegion;

verus! {

/// The scale `h / 1080` as the binary64 number nearest to it.
pub open spec fn f64_scale(h: u32) -> (nat, nat) {
    f64_round(h as nat, 1080)
}

/// `c * (h / 1080)` computed in binary64 (the quotient rounded, then the
/// product rounded) and truncated towards zero.
pub open spec fn scaled_coord(h: u32, c: nat) -> nat {
    if h == 0 {
        0
    } else {
        let s = f64_scale(h);
        f64_trunc(f64_round(c * s.0, pow2(s.1)))
    }
}

/// `w - 143 * (h / 1080)` computed in binary64 (each step rounded) and cast to
/// `u32`: truncated towards zero, and 0 where the difference is not positive.
pub open spec fn region_left(w: u32, h: u32) -> nat {
    if h == 0 {
        w as nat
    } else {
        let s = f64_scale(h);
        let t = f64_round(143 * s.0, pow2(s.1));
        let d = w * pow2(t.1) - t.0;
        if d <= 0 {
            0
        } else {
            f64_trunc(f64_round(d as nat, pow2(t.1)))
        }
    }
}

/// The CS counter region for a `w` by `h` screen. League's top scoreboard
/// scales with the screen height alone, by `s = h / 1080`: at 1080 pixels high
/// the digits start 143 pixels left of the right edge, 3 pixels from the top,
/// in a 50 by 20 box. The region is `(w - 143 s, 3 s, 50 s, 20 s)` computed in
/// double precision and cast to `u32`.
pub open spec fn cs_region_spec(w: u32, h: u32) -> CsRegion {
    CsRegion {
        x: region_left(w, h) as u32,
        y: scaled_coord(h, 3) as u32,
        width: scaled_coord(h, 50) as u32,
        height: scaled_coord(h, 20) as u32,
    }
}

/// Facts on the binary64 scale of a non-zero height.
proof fn lemma_scale_bounds(h: u32, ms: nat, ps: nat)
    requires
        h >= 1,
        two52() * 1080 <= h * ps,
        h * ps < two53() * 1080,
        two52() <= ms <= two53(),
    ensures
        0x4000_0000 <= ps <= 0x1_0000_0000_0000_0000,
{
    assert(ps <= 0x1_0000_0000_0000_0000) by (nonlinear_arith)
        requires
            h >= 1,
            h * ps < 9007199254740992 * 1080,
    ;
    assert(ps >= 0x4000_0000) by (nonlinear_arith)
        requires
            h <= 0xffff_ffff,
            4503599627370496 * 1080 <= h * ps,
    ;
}

/// `c * (ms / ps)` in binary64, truncated.
fn scaled_trunc(ms: u128, ps: u128, c: u128) -> (v: u128)
    requires
        1 <= c <= 143,
        two52() <= ms <= two53(),
        0x4000_0000 <= ps <= 0x1_0000_0000_0000_0000,
    ensures
        v == f64_trunc(f64_round((c * ms) as nat, ps as nat)),
        v <= u32::MAX,
{
    assert(1 <= c * ms < 9007199254740992 * ps) by (nonlinear_arith)
        requires
            1 <= c <= 143,
            4503599627370496 <= ms <= 9007199254740992,
            ps >= 0x4000_0000,
    ;
    let (m, k, p) = round_f64(c * ms, ps);
    assert(m / p <= u32::MAX) by (nonlinear_arith)
        requires
            4503599627370496 * ps <= (c * ms) * p,
            1 <= c <= 143,
            ms <= 9007199254740992,
            ps >= 0x4000_0000,
            m <= 9007199254740992,
    ;
    m / p
}

/// Calculate the CS counter region based on screen dimensions.
///
/// The CS counter sits in League's top scoreboard, which scales with game
/// resolution but NOT with the HUD GlobalScale setting. At 1920x1080 the CS
/// number text starts roughly 143 pixels from the right edge at y=3.
/// The region is sized to capture up to 3-digit CS values.
pub fn detect_cs_region(screen_width: u32, screen_height: u32) -> (region: CsRegion)
    ensures
        region == cs_region_spec(screen_width, screen_height),
        region_left(screen_width, screen_height) <= screen_width,
        scaled_coord(screen_height, 3) <= u32::MAX,
        scaled_coord(screen_height, 50) <= u32::MAX,
        scaled_coord(screen_height, 20) <= u32::MAX,
{
    if screen_height == 0 {
        return CsRegion { x: screen_width, y: 0, width: 0, height: 0 };
    }
    // League's scoreboard scales uniformly based on screen height, not
    // independently per axis.
    let (ms, ks, ps) = round_f64(screen_height as u128, 1080);
    proof {
        lemma_scale_bounds(screen_height, ms as nat, ps as nat);
    }
    let y = scaled_trunc(ms, ps, 3);
    let width = scaled_trunc(ms, ps, 50);
    let height = scaled_trunc(ms, ps, 20);
    assert(1 <= 143 * ms < 9007199254740992 * ps) by (nonlinear_arith)
        requires
            4503599627370496 <= ms <= 9007199254740992,
            ps >= 0x4000_0000,
    ;
    let (mt, kt, pt) = round_f64(143 * ms, ps);
    proof {
        lemma_pow2_positive(kt as nat);
        assert(pt <= ps) by (nonlinear_arith)
            requires
                (143 * ms) * pt < 9007199254740992 * ps,
                ms >= 4503599627370496,
        ;
        assert(screen_width * pt <= 0xffff_ffff * 0x1_0000_0000_0000_0000) by (nonlinear_arith)
            requires
                screen_width <= 0xffff_ffff,
                pt <= 0x1_0000_0000_0000_0000,
        ;
    }
    let wide = screen_width as u128 * pt;
    let x: u128 = if wide <= mt {
        0
    } else {
        assert(wide - mt < 9007199254740992 * pt) by (nonlinear_arith)
            requires
                wide == screen_width * pt,
                screen_width <= 0xffff_ffff,
                mt >= 0,
                pt >= 1,
        ;
        let (mv, kv, pv) = round_f64(wide - mt, pt);
        proof {
            lemma_pow2_positive(kv as nat);
            assert((wide - mt) * pv < screen_width * pv * pt) by (nonlinear_arith)
                requires
                    wide == screen_width * pt,
                    wide > mt,
                    mt >= 1,
                    pv >= 1,
            ;
            lemma_rne_div_below(((wide - mt) * pv) as nat, pt as nat, (screen_width * pv) as nat);
            assert(mv / pv <= screen_width) by (nonlinear_arith)
                requires
                    mv <= screen_width * pv,
                    pv >= 1,
            ;
        }
        mv / pv
    };
    CsRegion { x: x as u32, y: y as u32, width: width as u32, height: height as u32 }
}

/// A plausible creep-score value lies in `0..=999`.
pub open spec fn spec_is_valid_cs(cs: int) -> bool {
    0 <= cs <= 999
}

/// Validate that a parsed CS value is plausible (0-999).
pub fn is_valid_cs(cs: i64) -> (valid: bool)
    ensures
        valid == spec_is_valid_cs(cs as int),
{
    0 <= cs && cs <= 999
}

/// The region's top, width and height depend on the screen height alone.
pub proof fn lemma_region_size_ignores_width(w1: u32, w2: u32, h: u32)
    ensures
        cs_region_spec(w1, h).y == cs_region_spec(w2, h).y,
        cs_region_spec(w1, h).width == cs_region_spec(w2, h).width,
        cs_region_spec(w1, h).height == cs_region_spec(w2, h).height,
{
}

/// At the reference height of 1080 pixels the scale is exactly 1: the region
/// is the 50 by 20 box 143 pixels left of the right edge, 3 pixels from the top.
pub proof fn lemma_region_at_reference_height(w: u32)
    requires
        w >= 143,
    ensures
        cs_region_spec(w, 1080) == (CsRegion { x: (w - 143) as u32, y: 3, width: 50, height: 20 }),
{
    lemma_round_whole(1, 1080);
    let s = f64_scale(1080);
    assert(s.0 == pow2(s.1));
    lemma_pow2_positive(s.1);
    assert(3 * s.0 == 3 * pow2(s.1));
    lemma_round_whole(3, pow2(s.1));
    lemma_round_whole(50, pow2(s.1));
    lemma_round_whole(20, pow2(s.1));
    lemma_round_whole(143, pow2(s.1));
    assert(scaled_coord(1080, 3) == 3);
    assert(scaled_coord(1080, 50) == 50);
    assert(scaled_coord(1080, 20) == 20);
    let t = f64_round(143 * s.0, pow2(s.1));
    assert(t.0 == 143 * pow2(t.1));
    let d = w * pow2(t.1) - t.0;
    assert(d == (w - 143) * pow2(t.1)) by (nonlinear_arith)
        requires
            t.0 == 143 * pow2(t.1),
            d == w * pow2(t.1) - t.0,
    ;
    if w > 143 {
        lemma_pow2_positive(t.1);
        let v = (w - 143) as nat;
        lemma_round_whole(v, pow2(t.1));
        assert(v * pow2(t.1) >= 1) by (nonlinear_arith)
            requires
                v >= 1,
                pow2(t.1) >= 1,
        ;
        assert(d > 0);
        assert(d as nat == v * pow2(t.1));
        assert(f64_trunc(f64_round(d as nat, pow2(t.1))) == v);
        assert(region_left(w, 1080) == v);
    } else {
        assert(d == 0);
    }
}

/// The binary64 scale of a non-zero height: the mantissa within one half of
/// `h * 2^k / 1080`, and `2^k` at least `2^30`.
proof fn lemma_scale_facts(h: u32)
    requires
        h >= 1,
    ensures
        ({
            let s = f64_scale(h);
            let ps = pow2(s.1);
            &&& 2160 * s.0 <= 2 * (h * ps) + 1080
            &&& 2160 * s.0 + 1080 >= 2 * (h * ps)
            &&& two52() <= s.0 <= two53()
            &&& 0x4000_0000 <= ps
        }),
{
    lemma_round_facts(h as nat, 1080);
    let s = f64_scale(h);
    let ps = pow2(s.1);
    assert(ps >= 0x4000_0000) by (nonlinear_arith)
        requires
            h <= 0xffff_ffff,
            4503599627370496 * 1080 <= h * ps,
    ;
}

/// `c * (h / 1080)` in binary64, truncated, is at most `c * h / 1080`.
pub proof fn lemma_scaled_coord_bound(h: u32, c: nat)
    requires
        1 <= c <= 143,
    ensures
        1080 * scaled_coord(h, c) <= c * h,
{
    if h >= 1 {
        lemma_scale_facts(h);
        let s = f64_scale(h);
        let ms = s.0;
        let ps = pow2(s.1);
        assert(1 <= c * ms < two53() * ps) by (nonlinear_arith)
            requires
                1 <= c <= 143,
                4503599627370496 <= ms <= 9007199254740992,
                ps >= 0x4000_0000,
        ;
        lemma_round_facts(c * ms, ps);
        let r = f64_round(c * ms, ps);
        let mw = r.0;
        let pw = pow2(r.1);
        let v = mw / pw;
        assert(v * pw <= mw) by (nonlinear_arith)
            requires
                pw >= 1,
                v == mw / pw,
        ;
        assert(ps <= 286 * pw) by (nonlinear_arith)
            requires
                4503599627370496 * ps <= (c * ms) * pw,
                c <= 143,
                ms <= 9007199254740992,
        ;
        assert(2160 * (ps * pw * v) <= 2 * (c * h) * (ps * pw) + 1080 * c * pw + 1080 * ps)
            by (nonlinear_arith)
            requires
                v * pw <= mw,
                2 * ps * mw <= 2 * ((c * ms) * pw) + ps,
                2160 * ms <= 2 * (h * ps) + 1080,
                ps >= 1,
        ;
        assert(1080 * v <= c * h) by (nonlinear_arith)
            requires
                2160 * (ps * pw * v) <= 2 * (c * h) * (ps * pw) + 1080 * c * pw + 1080 * ps,
                ps >= 0x4000_0000,
                ps <= 286 * pw,
                c <= 143,
        ;
    }
}

/// The left edge in binary64, truncated, is at most `w - 143 * h / 1080`
/// wherever it is not 0.
pub proof fn lemma_region_left_bound(w: u32, h: u32)
    ensures
        region_left(w, h) == 0 || 1080 * region_left(w, h) + 143 * h <= 1080 * w,
{
    if h >= 1 {
        lemma_scale_facts(h);
        let s = f64_scale(h);
        let ms = s.0;
        let ps = pow2(s.1);
        assert(1 <= 143 * ms < two53() * ps) by (nonlinear_arith)
            requires
                4503599627370496 <= ms <= 9007199254740992,
                ps >= 0x4000_0000,
        ;
        lemma_round_facts(143 * ms, ps);
        let t = f64_round(143 * ms, ps);
        let mt = t.0;
        let pt = pow2(t.1);
        let d: int = w * pt - mt;
        if d > 0 {
            assert(d < two53() * pt) by (nonlinear_arith)
                requires
                    d <= w * pt,
                    w <= 0xffff_ffff,
                    pt >= 1,
            ;
            lemma_round_facts(d as nat, pt);
            let r = f64_round(d as nat, pt);
            let mv = r.0;
            let pv = pow2(r.1);
            let x = mv / pv;
            assert(x * pv <= mv) by (nonlinear_arith)
                requires
                    pv >= 1,
                    x == mv / pv,
            ;
            assert(ps <= 286 * pt) by (nonlinear_arith)
                requires
                    4503599627370496 * ps <= (143 * ms) * pt,
                    ms <= 9007199254740992,
            ;
            assert(pv >= 0x10_0000) by (nonlinear_arith)
                requires
                    4503599627370496 * pt <= d * pv,
                    d <= w * pt,
                    w <= 0xffff_ffff,
                    pt >= 1,
            ;
            // 2 pt pv x <= 2 d pv + pt
            assert(2 * pt * pv * x <= 2 * d * pv + pt) by (nonlinear_arith)
                requires
                    x * pv <= mv,
                    2 * pt * mv <= 2 * (d * pv) + pt,
                    pt >= 1,
            ;
            // times ps, with 2 ps mt + ps >= 286 ms pt
            let big = ps * pt * pv;
            assert((2 * pt * pv * x) * ps <= (2 * d * pv + pt) * ps) by (nonlinear_arith)
                requires
                    2 * pt * pv * x <= 2 * d * pv + pt,
                    ps >= 1,
            ;
            assert((2 * pt * pv * x) * ps == 2 * big * x) by (nonlinear_arith)
                requires
                    big == ps * pt * pv,
            ;
            assert((2 * d * pv + pt) * ps == 2 * w * big - 2 * (ps * mt) * pv + ps * pt)
                by (nonlinear_arith)
                requires
                    d == w * pt - mt,
                    big == ps * pt * pv,
            ;
            assert(2 * ps * mt + ps >= 2 * ((143 * ms) * pt));
            assert(2 * (ps * mt) + ps >= 286 * (ms * pt)) by (nonlinear_arith)
                requires
                    2 * ps * mt + ps >= 2 * ((143 * ms) * pt),
            ;
            assert(2 * (ps * mt) * pv >= (286 * (ms * pt) - ps) * pv) by (nonlinear_arith)
                requires
                    2 * (ps * mt) + ps >= 286 * (ms * pt),
                    pv >= 1,
            ;
            let e1 = ps * pv;
            let e2 = ps * pt;
            assert(2 * big * x <= 2 * w * big - 286 * (ms * pt) * pv + e1 + e2) by (nonlinear_arith)
                requires
                    2 * big * x <= 2 * w * big - 2 * (ps * mt) * pv + ps * pt,
                    2 * (ps * mt) * pv >= (286 * (ms * pt) - ps) * pv,
                    e1 == ps * pv,
                    e2 == ps * pt,
            ;
            // times 1080, with 2160 ms + 1080 >= 2 h ps
            let f = pt * pv;
            assert(f >= 1) by (nonlinear_arith)
                requires
                    f == pt * pv,
                    pt >= 1,
                    pv >= 1,
            ;
            assert(286 * (ms * pt) * pv == 286 * ms * f) by (nonlinear_arith)
                requires
                    f == pt * pv,
            ;
            assert(1080 * (286 * ms * f) >= 286 * h * (ps * f) - 154440 * f) by (nonlinear_arith)
                requires
                    2160 * ms + 1080 >= 2 * (h * ps),
                    f >= 1,
            ;
            assert(ps * f == big) by (nonlinear_arith)
                requires
                    f == pt * pv,
                    big == ps * pt * pv,
            ;
            assert(e1 >= 1 && e2 >= 1 && big >= 1) by (nonlinear_arith)
                requires
                    e1 == ps * pv,
                    e2 == ps * pt,
                    big == ps * f,
                    ps >= 1,
                    pt >= 1,
                    pv >= 1,
                    f >= 1,
            ;
            let g: int = 2160 * x - 2160 * w + 286 * h;
            assert(g * big <= 154440 * f + 1080 * e1 + 1080 * e2) by (nonlinear_arith)
                requires
                    2 * big * x <= 2 * w * big - 286 * ms * f + e1 + e2,
                    1080 * (286 * ms * f) >= 286 * h * big - 154440 * f,
                    g == 2160 * x - 2160 * w + 286 * h,
            ;
            // each error term is below a third of `big`
            assert(3 * 154440 * f < big) by (nonlinear_arith)
                requires
                    big == ps * f,
                    ps >= 0x4000_0000,
                    f >= 1,
            ;
            assert(3 * 1080 * e1 < big) by (nonlinear_arith)
                requires
                    big == ps * pt * pv,
                    e1 == ps * pv,
                    e1 >= 1,
                    pt >= 3241,
            ;
            assert(3 * 1080 * e2 < big) by (nonlinear_arith)
                requires
                    big == ps * pt * pv,
                    e2 == ps * pt,
                    e2 >= 1,
                    pv >= 3241,
            ;
            assert(g * big < big) by (nonlinear_arith)
                requires
                    g * big <= 154440 * f + 1080 * e1 + 1080 * e2,
                    3 * 154440 * f < big,
                    3 * 1080 * e1 < big,
                    3 * 1080 * e2 < big,
            ;
            assert(g <= 0) by (nonlinear_arith)
                requires
                    g * big < big,
                    big >= 1,
            ;
        }
    }
}

/// On a screen at least as wide as the scaled right-edge offset
/// (`143 * h <= 1080 * w`), the CS region lies wholly inside the screen.
pub proof fn lemma_region_inside_screen(w: u32, h: u32)
    requires
        143 * h <= 1080 * w,
    ensures
        cs_region_spec(w, h).x + cs_region_spec(w, h).width <= w,
        cs_region_spec(w, h).y + cs_region_spec(w, h).height <= h,
{
    lemma_region_left_bound(w, h);
    lemma_scaled_coord_bound(h, 3);
    lemma_scaled_coord_bound(h, 20);
    lemma_scaled_coord_bound(h, 50);
    let x = region_left(w, h);
    let wd = scaled_coord(h, 50);
    assert(x <= w) by {
        if x != 0 {
            assert(1080 * x <= 1080 * w);
        }
    }
    assert(x + wd <= w);
    assert(scaled_coord(h, 3) + scaled_coord(h, 20) <= h);
}

} // verus!
