//! Volcanic edifice kinds and the tectonic settings they come from.

use vstd::prelude::*;

verus! {

/// Edifice morphology.
#[derive(Clone, Copy, Debug, PartialEq, Eq, Structural)]
pub enum VolcanoKind {
    /// Steep composite cone (arc).
    Stratocone,
    /// Gentle basaltic shield (hotspot / rift).
    Shield,
}

/// Tectonic setting an edifice was derived from.
#[derive(Clone, Copy, Debug, PartialEq, Eq, Structural)]
pub enum VolcanoSetting {
    /// Island arc along an oceanic-continental convergent margin.
    Arc,
    /// Intraplate hotspot.
    Hotspot,
    /// Continental rift / divergent boundary.
    Rift,
}

/// The morphology a setting builds: arc magmas are andesitic and viscous
/// (steep stratocones); hotspot and rift magmas are basaltic and fluid
/// (gentle shields).
pub fn volcano_kind_for(setting: VolcanoSetting) -> (kind: VolcanoKind)
    ensures
        kind == (if setting == VolcanoSetting::Arc {
            VolcanoKind::Stratocone
        } else {
            VolcanoKind::Shield
        }),
{
    match setting {
        VolcanoSetting::Arc => VolcanoKind::Stratocone,
        VolcanoSetting::Hotspot => VolcanoKind::Shield,
        VolcanoSetting::Rift => VolcanoKind::Shield,
    }
}

} // verus!
