//! Acceptance verdict of a generated domain: the geometric clauses are
//! checked in a fixed order and the first failing one is reported.

use vstd::prelude::*;

verus! {

/// Outcome of the geometric acceptance of a domain.
#[derive(Clone, Copy, Debug, PartialEq, Eq, Structural)]
pub enum DomainVerdict {
    NoLand,
    WrapsX,
    WrapsY,
    LandOnBorder,
    TooWide,
    TooTall,
    Pass,
}

/// First failing clause, in order: no land mass, a band in x, a band in y,
/// land on the domain border, too wide, too tall; `Pass` when none fails.
pub open spec fn first_failing(
    num_landmasses: nat,
    wraps_x: bool,
    wraps_y: bool,
    on_border: bool,
    too_wide: bool,
    too_tall: bool,
) -> DomainVerdict {
    if num_landmasses == 0 {
        DomainVerdict::NoLand
    } else if wraps_x {
        DomainVerdict::WrapsX
    } else if wraps_y {
        DomainVerdict::WrapsY
    } else if on_border {
        DomainVerdict::LandOnBorder
    } else if too_wide {
        DomainVerdict::TooWide
    } else if too_tall {
        DomainVerdict::TooTall
    } else {
        DomainVerdict::Pass
    }
}

/// Geometric verdict of a domain (see [`first_failing`]). `too_wide` /
/// `too_tall` say whether the largest mass's bounding box exceeds the
/// allowed fraction of the domain on that axis.
pub fn domain_verdict(
    num_landmasses: usize,
    wraps_x: bool,
    wraps_y: bool,
    on_border: bool,
    too_wide: bool,
    too_tall: bool,
) -> (v: DomainVerdict)
    ensures
        v == first_failing(num_landmasses as nat, wraps_x, wraps_y, on_border, too_wide, too_tall),
        (v == DomainVerdict::Pass) <==> (num_landmasses > 0 && !wraps_x && !wraps_y && !on_border && !too_wide
            && !too_tall),
        num_landmasses == 0 <==> v == DomainVerdict::NoLand,
        num_landmasses > 0 && wraps_x <==> v == DomainVerdict::WrapsX,
        num_landmasses > 0 && !wraps_x && wraps_y <==> v == DomainVerdict::WrapsY,
        num_landmasses > 0 && !wraps_x && !wraps_y && on_border <==> v == DomainVerdict::LandOnBorder,
        num_landmasses > 0 && !wraps_x && !wraps_y && !on_border && too_wide <==> v == DomainVerdict::TooWide,
        num_landmasses > 0 && !wraps_x && !wraps_y && !on_border && !too_wide && too_tall <==> v
            == DomainVerdict::TooTall,
{
    let v = if num_landmasses == 0 {
        DomainVerdict::NoLand
    } else if wraps_x {
        DomainVerdict::WrapsX
    } else if wraps_y {
        DomainVerdict::WrapsY
    } else if on_border {
        DomainVerdict::LandOnBorder
    } else if too_wide {
        DomainVerdict::TooWide
    } else if too_tall {
        DomainVerdict::TooTall
    } else {
        DomainVerdict::Pass
    };
    proof {
        law_verdict_names_failing_clause(num_landmasses as nat, wraps_x, wraps_y, on_border, too_wide, too_tall);
    }
    v
}

/// The verdict names exactly the first clause that fails, in the order no
/// land, band in x, band in y, land on the border, too wide, too tall: each
/// verdict is given on exactly the inputs where its clause fails and every
/// earlier one holds, and `Pass` exactly when all hold.
pub proof fn law_verdict_names_failing_clause(
    n: nat,
    wraps_x: bool,
    wraps_y: bool,
    on_border: bool,
    too_wide: bool,
    too_tall: bool,
)
    ensures
        ({
            let v = first_failing(n, wraps_x, wraps_y, on_border, too_wide, too_tall);
            &&& n == 0 <==> v == DomainVerdict::NoLand
            &&& n > 0 && wraps_x <==> v == DomainVerdict::WrapsX
            &&& n > 0 && !wraps_x && wraps_y <==> v == DomainVerdict::WrapsY
            &&& n > 0 && !wraps_x && !wraps_y && on_border <==> v == DomainVerdict::LandOnBorder
            &&& n > 0 && !wraps_x && !wraps_y && !on_border && too_wide <==> v == DomainVerdict::TooWide
            &&& n > 0 && !wraps_x && !wraps_y && !on_border && !too_wide && too_tall <==> v == DomainVerdict::TooTall
            &&& n > 0 && !wraps_x && !wraps_y && !on_border && !too_wide && !too_tall <==> v == DomainVerdict::Pass
        }),
{
}

} // verus!
