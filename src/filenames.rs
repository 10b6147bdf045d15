//! The names that the region-dependent files of openingTitle.arc have in
//! each region.

use vstd::prelude::*;

use crate::region::Region;

verus! {

/// The five files whose names depend on the region.
#[derive(Copy, Clone, PartialEq, Eq, Structural, Debug)]
pub enum Role {
    InPressBrlan,
    InTitleBrlan,
    LoopPressBrlan,
    OutPressBrlan,
    Brlyt,
}

/// The roles in the order in which they are handled.
pub open spec fn all_roles() -> Seq<Role> {
    seq![Role::InPressBrlan, Role::InTitleBrlan, Role::LoopPressBrlan, Role::OutPressBrlan, Role::Brlyt]
}

/// The roles whose files live in the anim folder; the layout lives in blyt.
pub open spec fn anim_roles() -> Seq<Role> {
    seq![Role::InPressBrlan, Role::InTitleBrlan, Role::LoopPressBrlan, Role::OutPressBrlan]
}

impl Role {
    /// The roles in the order in which they are handled.
    pub fn all() -> (r: Vec<Role>)
        ensures
            r@ == all_roles(),
    {
        let r = vec![Role::InPressBrlan, Role::InTitleBrlan, Role::LoopPressBrlan, Role::OutPressBrlan, Role::Brlyt];
        assert(r@ =~= all_roles());
        r
    }

    /// The roles whose files live in the anim folder.
    pub fn anim() -> (r: Vec<Role>)
        ensures
            r@ == anim_roles(),
    {
        let r = vec![Role::InPressBrlan, Role::InTitleBrlan, Role::LoopPressBrlan, Role::OutPressBrlan];
        assert(r@ =~= anim_roles());
        r
    }

    /// How an error names a missing file of this role.
    pub fn description(self) -> (r: &'static str)
        ensures
            r@ == role_description(self),
    {
        match self {
            Role::InPressBrlan => "inPress brlan",
            Role::InTitleBrlan => "inTitle brlan",
            Role::LoopPressBrlan => "loopPress brlan",
            Role::OutPressBrlan => "outPress brlan",
            Role::Brlyt => "brlyt",
        }
    }
}

/// How an error names a missing file of a role.
pub open spec fn role_description(role: Role) -> Seq<char> {
    match role {
        Role::InPressBrlan => "inPress brlan"@,
        Role::InTitleBrlan => "inTitle brlan"@,
        Role::LoopPressBrlan => "loopPress brlan"@,
        Role::OutPressBrlan => "outPress brlan"@,
        Role::Brlyt => "brlyt"@,
    }
}

/// The region-dependent file names of one region.
#[derive(Copy, Clone, PartialEq, Eq, Debug)]
pub struct OpeningTitleRegionFilenames {
    pub in_press_brlan: &'static str,
    pub in_title_brlan: &'static str,
    pub loop_press_brlan: &'static str,
    pub out_press_brlan: &'static str,
    pub brlyt: &'static str,
}

/// The name of the file of `role` in `region`.
pub open spec fn filename(region: Region, role: Role) -> Seq<char> {
    match (region, role) {
        (Region::P, Role::InPressBrlan) => "openingTitle_EU_00_inPress.brlan"@,
        (Region::P, Role::InTitleBrlan) => "openingTitle_EU_00_inTitle.brlan"@,
        (Region::P, Role::LoopPressBrlan) => "openingTitle_EU_00_loopPress.brlan"@,
        (Region::P, Role::OutPressBrlan) => "openingTitle_EU_00_outPress.brlan"@,
        (Region::P, Role::Brlyt) => "openingTitle_EU_00.brlyt"@,
        (Region::E, Role::InPressBrlan) => "openingTitle_US_00_inPress.brlan"@,
        (Region::E, Role::InTitleBrlan) => "openingTitle_US_00_inTitle.brlan"@,
        (Region::E, Role::LoopPressBrlan) => "openingTitle_US_00_loopPress.brlan"@,
        (Region::E, Role::OutPressBrlan) => "openingTitle_US_00_outPress.brlan"@,
        (Region::E, Role::Brlyt) => "openingTitle_US_00.brlyt"@,
        (Region::J, Role::InPressBrlan) => "openingTitle_13_inPress.brlan"@,
        (Region::J, Role::InTitleBrlan) => "openingTitle_13_inTitle.brlan"@,
        (Region::J, Role::LoopPressBrlan) => "openingTitle_13_loopPress.brlan"@,
        (Region::J, Role::OutPressBrlan) => "openingTitle_13_outPress.brlan"@,
        (Region::J, Role::Brlyt) => "openingTitle_13.brlyt"@,
        (Region::K, Role::InPressBrlan) => "openingTitle_KR_00_inPress.brlan"@,
        (Region::K, Role::InTitleBrlan) => "openingTitle_KR_00_inTitle.brlan"@,
        (Region::K, Role::LoopPressBrlan) => "openingTitle_KR_00_loopPress.brlan"@,
        (Region::K, Role::OutPressBrlan) => "openingTitle_KR_00_outPress.brlan"@,
        (Region::K, Role::Brlyt) => "openingTitle_KR_00.brlyt"@,
        (Region::W, Role::InPressBrlan) => "openingTitle_TW_00_inPress.brlan"@,
        (Region::W, Role::InTitleBrlan) => "openingTitle_TW_00_inTitle.brlan"@,
        (Region::W, Role::LoopPressBrlan) => "openingTitle_TW_00_loopPress.brlan"@,
        (Region::W, Role::OutPressBrlan) => "openingTitle_TW_00_outPress.brlan"@,
        (Region::W, Role::Brlyt) => "openingTitle_TW_00.brlyt"@,
        (Region::C, Role::InPressBrlan) => "openingTitle_CN_00_inPress.brlan"@,
        (Region::C, Role::InTitleBrlan) => "openingTitle_CN_00_inTitle.brlan"@,
        (Region::C, Role::LoopPressBrlan) => "openingTitle_CN_00_loopPress.brlan"@,
        (Region::C, Role::OutPressBrlan) => "openingTitle_CN_00_outPress.brlan"@,
        (Region::C, Role::Brlyt) => "openingTitle_CN_00.brlyt"@,
    }
}

impl OpeningTitleRegionFilenames {
    /// The file names of `region`.
    pub fn for_region(region: Region) -> (r: Self)
        ensures
            r.in_press_brlan@ == filename(region, Role::InPressBrlan),
            r.in_title_brlan@ == filename(region, Role::InTitleBrlan),
            r.loop_press_brlan@ == filename(region, Role::LoopPressBrlan),
            r.out_press_brlan@ == filename(region, Role::OutPressBrlan),
            r.brlyt@ == filename(region, Role::Brlyt),
    {
        match region {
            Region::P => OpeningTitleRegionFilenames {
                in_press_brlan: "openingTitle_EU_00_inPress.brlan",
                in_title_brlan: "openingTitle_EU_00_inTitle.brlan",
                loop_press_brlan: "openingTitle_EU_00_loopPress.brlan",
                out_press_brlan: "openingTitle_EU_00_outPress.brlan",
                brlyt: "openingTitle_EU_00.brlyt",
            },
            Region::E => OpeningTitleRegionFilenames {
                in_press_brlan: "openingTitle_US_00_inPress.brlan",
                in_title_brlan: "openingTitle_US_00_inTitle.brlan",
                loop_press_brlan: "openingTitle_US_00_loopPress.brlan",
                out_press_brlan: "openingTitle_US_00_outPress.brlan",
                brlyt: "openingTitle_US_00.brlyt",
            },
            Region::J => OpeningTitleRegionFilenames {
                in_press_brlan: "openingTitle_13_inPress.brlan",
                in_title_brlan: "openingTitle_13_inTitle.brlan",
                loop_press_brlan: "openingTitle_13_loopPress.brlan",
                out_press_brlan: "openingTitle_13_outPress.brlan",
                brlyt: "openingTitle_13.brlyt",
            },
            Region::K => OpeningTitleRegionFilenames {
                in_press_brlan: "openingTitle_KR_00_inPress.brlan",
                in_title_brlan: "openingTitle_KR_00_inTitle.brlan",
                loop_press_brlan: "openingTitle_KR_00_loopPress.brlan",
                out_press_brlan: "openingTitle_KR_00_outPress.brlan",
                brlyt: "openingTitle_KR_00.brlyt",
            },
            Region::W => OpeningTitleRegionFilenames {
                in_press_brlan: "openingTitle_TW_00_inPress.brlan",
                in_title_brlan: "openingTitle_TW_00_inTitle.brlan",
                loop_press_brlan: "openingTitle_TW_00_loopPress.brlan",
                out_press_brlan: "openingTitle_TW_00_outPress.brlan",
                brlyt: "openingTitle_TW_00.brlyt",
            },
            Region::C => OpeningTitleRegionFilenames {
                in_press_brlan: "openingTitle_CN_00_inPress.brlan",
                in_title_brlan: "openingTitle_CN_00_inTitle.brlan",
                loop_press_brlan: "openingTitle_CN_00_loopPress.brlan",
                out_press_brlan: "openingTitle_CN_00_outPress.brlan",
                brlyt: "openingTitle_CN_00.brlyt",
            },
        }
    }

    /// The name of the file of `role`.
    pub fn get(&self, role: Role) -> (r: &'static str)
        ensures
            r == match role {
                Role::InPressBrlan => self.in_press_brlan,
                Role::InTitleBrlan => self.in_title_brlan,
                Role::LoopPressBrlan => self.loop_press_brlan,
                Role::OutPressBrlan => self.out_press_brlan,
                Role::Brlyt => self.brlyt,
            },
    {
        match role {
            Role::InPressBrlan => self.in_press_brlan,
            Role::InTitleBrlan => self.in_title_brlan,
            Role::LoopPressBrlan => self.loop_press_brlan,
            Role::OutPressBrlan => self.out_press_brlan,
            Role::Brlyt => self.brlyt,
        }
    }
}

/// The name of the file of `role` in `region`.
pub fn filename_of(region: Region, role: Role) -> (r: &'static str)
    ensures
        r@ == filename(region, role),
{
    OpeningTitleRegionFilenames::for_region(region).get(role)
}

} // verus!
