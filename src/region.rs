//! Regions of the game, sets of them, and reading them from text.

use vstd::prelude::*;

verus! {

/// The regions of the game, named by the letter of their game codes.
#[derive(Copy, Clone, PartialEq, Eq, Structural, Hash, Debug)]
pub enum Region {
    /// International
    P,
    /// North America
    E,
    /// Japan
    J,
    /// Korea
    K,
    /// Taiwan
    W,
    /// China
    C,
}

/// All regions, in the order in which their files are preferred by default.
pub open spec fn default_order() -> Seq<Region> {
    seq![Region::P, Region::E, Region::J, Region::K, Region::W, Region::C]
}

/// The one-letter name of a region.
pub open spec fn region_code(r: Region) -> Seq<char> {
    match r {
        Region::P => "P"@,
        Region::E => "E"@,
        Region::J => "J"@,
        Region::K => "K"@,
        Region::W => "W"@,
        Region::C => "C"@,
    }
}

/// The region whose name is `s`, if any.
pub open spec fn region_named(s: Seq<char>) -> Option<Region> {
    if s == "P"@ {
        Some(Region::P)
    } else if s == "E"@ {
        Some(Region::E)
    } else if s == "J"@ {
        Some(Region::J)
    } else if s == "K"@ {
        Some(Region::K)
    } else if s == "W"@ {
        Some(Region::W)
    } else if s == "C"@ {
        Some(Region::C)
    } else {
        None
    }
}

impl Region {
    /// All regions, in the order in which their files are preferred when
    /// copies conflict and no other order is asked for.
    pub const DEFAULT_ORDER: [Region; 6] = [
        Region::P,
        Region::E,
        Region::J,
        Region::K,
        Region::W,
        Region::C,
    ];

    /// `DEFAULT_ORDER` as a vector.
    pub fn default_order() -> (r: Vec<Region>)
        ensures
            r@ == default_order(),
    {
        let r = vec![Region::P, Region::E, Region::J, Region::K, Region::W, Region::C];
        assert(r@ =~= default_order());
        r
    }

    /// The one-letter name of the region.
    pub fn code(self) -> (r: &'static str)
        ensures
            r@ == region_code(self),
    {
        match self {
            Region::P => "P",
            Region::E => "E",
            Region::J => "J",
            Region::K => "K",
            Region::W => "W",
            Region::C => "C",
        }
    }
}

/// Why a text could not be read as a region or a list of regions.
#[non_exhaustive]
#[derive(Clone, PartialEq, Eq, Debug)]
pub enum ParseRegionError {
    /// The text is not the name of a region.
    UnknownRegionName(String),
    /// A list names the same region twice.
    RepeatedRegionName(String),
}

/// What `str::to_uppercase` gives for a text.
pub uninterp spec fn upper_of(s: Seq<char>) -> Seq<char>;

/// What `str::to_lowercase` gives for a text.
pub uninterp spec fn lower_of(s: Seq<char>) -> Seq<char>;

/// A character in upper case by the ASCII rule: 'a' to 'z' become 'A' to
/// 'Z', and all else stays.
pub open spec fn ascii_upper_char(c: char) -> char {
    if 'a' <= c <= 'z' {
        ((c as u32) - 32) as char
    } else {
        c
    }
}

/// Relies on `str::to_uppercase`: the result depends on the characters
/// alone, and Unicode's upper-case mapping of an ASCII letter is its ASCII
/// capital, other ASCII characters mapping to themselves.
#[verifier::external_body]
fn uppercase(s: &str) -> (r: String)
    ensures
        r@ == upper_of(s@),
        all_ascii(s@) ==> r@ == s@.map_values(|c: char| ascii_upper_char(c)),
{
    s.to_uppercase()
}

/// A character in lower case by the ASCII rule: 'A' to 'Z' become 'a' to
/// 'z', and all else stays.
pub open spec fn ascii_lower_char(c: char) -> char {
    if 'A' <= c <= 'Z' {
        ((c as u32) + 32) as char
    } else {
        c
    }
}

/// Every character of `s` is ASCII.
pub open spec fn all_ascii(s: Seq<char>) -> bool {
    forall|i: int| 0 <= i < s.len() ==> (#[trigger] s[i] as u32) < 128
}

/// Relies on `str::to_lowercase`: the result depends on the characters
/// alone, and its source lower-cases a run of ASCII with
/// `u8::to_ascii_lowercase`, so an ASCII text is lower-cased letter by letter.
#[verifier::external_body]
pub(crate) fn lowercase(s: &str) -> (r: String)
    ensures
        r@ == lower_of(s@),
        all_ascii(s@) ==> r@ == s@.map_values(|c: char| ascii_lower_char(c)),
{
    s.to_lowercase()
}

/// Whether `a` and `b` hold the same text.
pub(crate) fn same_text(a: &String, b: &str) -> (r: bool)
    ensures
        r == (a@ == b@),
{
    let b = b.to_owned();
    *a == b
}

/// The region named `s`, compared without regard to case.
pub fn parse_region(s: &str) -> (r: Result<Region, ParseRegionError>)
    ensures
        r matches Ok(g) ==> region_named(upper_of(s@)) == Some(g),
        r is Err ==> (r->Err_0 matches ParseRegionError::UnknownRegionName(n) && n@ == s@),
        r is Ok <==> region_named(upper_of(s@)) is Some,
        all_ascii(s@) ==> upper_of(s@) == s@.map_values(|c: char| ascii_upper_char(c)),
{
    let u = uppercase(s);
    if same_text(&u, "P") {
        Ok(Region::P)
    } else if same_text(&u, "E") {
        Ok(Region::E)
    } else if same_text(&u, "J") {
        Ok(Region::J)
    } else if same_text(&u, "K") {
        Ok(Region::K)
    } else if same_text(&u, "W") {
        Ok(Region::W)
    } else if same_text(&u, "C") {
        Ok(Region::C)
    } else {
        Err(ParseRegionError::UnknownRegionName(s.to_owned()))
    }
}

impl std::str::FromStr for Region {
    type Err = ParseRegionError;

    fn from_str(s: &str) -> Result<Region, ParseRegionError> {
        parse_region(s)
    }
}

/// The pieces of `s` between the separators `sep`, as `str::split` gives them.
pub open spec fn split_on(s: Seq<char>, sep: char) -> Seq<Seq<char>>
    decreases s.len(),
{
    if s.len() == 0 {
        seq![Seq::<char>::empty()]
    } else {
        let rest = split_on(s.drop_first(), sep);
        if s[0] == sep {
            seq![Seq::<char>::empty()] + rest
        } else {
            rest.update(0, seq![s[0]] + rest[0])
        }
    }
}

/// Relies on `str::split` with a character pattern: the pieces between
/// the separators, each copied into a `String`.
#[verifier::external_body]
pub(crate) fn split_text(s: &str, sep: char) -> (r: Vec<String>)
    ensures
        r@.len() == split_on(s@, sep).len(),
        forall|i: int| 0 <= i < r@.len() ==> #[trigger] r@[i]@ == split_on(s@, sep)[i],
{
    s.split(sep).map(|p| p.to_owned()).collect()
}

/// The regions that a list of names gives, in order, or `None` where a
/// name is unknown or repeated.
pub open spec fn region_list(pieces: Seq<Seq<char>>) -> Option<Seq<Region>>
    decreases pieces.len(),
{
    if pieces.len() == 0 {
        Some(Seq::empty())
    } else {
        match region_list(pieces.drop_last()) {
            None => None,
            Some(rs) => match region_named(upper_of(pieces.last())) {
                None => None,
                Some(g) => if rs.contains(g) {
                    None
                } else {
                    Some(rs.push(g))
                },
            },
        }
    }
}

/// The regions that a comma-separated list of names gives, or all of
/// them, in the default order, for "all" in any case.
pub open spec fn regions_of_list(arg: Seq<char>) -> Option<Seq<Region>> {
    if lower_of(arg) == "all"@ {
        Some(default_order())
    } else {
        region_list(split_on(arg, ','))
    }
}

/// Read a comma-separated list of region names (`"P,J,C"`), or `"all"`
/// for every region in the default order. Names are read without regard
/// to case; an unknown or repeated name is an error that names it.
pub fn read_region_list_str(arg: &str) -> (r: Result<Vec<Region>, ParseRegionError>)
    ensures
        r is Ok <==> regions_of_list(arg@) is Some,
        r matches Ok(v) ==> Some(v@) == regions_of_list(arg@),
        all_ascii(arg@) ==> lower_of(arg@) == arg@.map_values(|c: char| ascii_lower_char(c)),
        r is Err ==> exists|i: int|
            0 <= i < split_on(arg@, ',').len() && #[trigger] split_on(arg@, ',')[i]
                == error_subject(r->Err_0),
{
    let lower = lowercase(arg);
    assert(all_ascii(arg@) ==> lower_of(arg@) == arg@.map_values(|c: char| ascii_lower_char(c)));
    if same_text(&lower, "all") {
        return Ok(Region::default_order());
    }
    let pieces = split_text(arg, ',');
    let ghost ps = split_on(arg@, ',');
    let mut result: Vec<Region> = Vec::new();
    let mut i: usize = 0;
    while i < pieces.len()
        invariant
            i <= pieces@.len(),
            pieces@.len() == ps.len(),
            forall|k: int| 0 <= k < pieces@.len() ==> #[trigger] pieces@[k]@ == ps[k],
            region_list(ps.subrange(0, i as int)) == Some(result@),
            lower@ == lower_of(arg@),
            lower@ != "all"@,
            all_ascii(arg@) ==> lower_of(arg@) == arg@.map_values(|c: char| ascii_lower_char(c)),
            ps == split_on(arg@, ','),
        decreases pieces@.len() - i,
    {
        let item = &pieces[i];
        assert(ps.subrange(0, i + 1).drop_last() =~= ps.subrange(0, i as int));
        let region = match parse_region(item.as_str()) {
            Ok(g) => g,
            Err(e) => {
                assert(region_list(ps.subrange(0, i + 1)) is None);
                proof { lemma_region_list_none_extends(ps, (i + 1) as int); }
                assert(ps.subrange(0, ps.len() as int) =~= ps);
                return Err(e);
            },
        };
        let mut seen = false;
        let mut j: usize = 0;
        while j < result.len()
            invariant
                j <= result@.len(),
                seen == (exists|k: int| 0 <= k < j && result@[k] == region),
            decreases result@.len() - j,
        {
            if result[j] == region {
                seen = true;
            }
            j = j + 1;
        }
        if seen {
            assert(region_list(ps.subrange(0, i + 1)) is None);
            proof { lemma_region_list_none_extends(ps, (i + 1) as int); }
            assert(ps.subrange(0, ps.len() as int) =~= ps);
            return Err(ParseRegionError::RepeatedRegionName(item.clone()));
        }
        result.push(region);
        i = i + 1;
    }
    assert(ps.subrange(0, i as int) =~= ps);
    Ok(result)
}

/// The text that an error names.
pub open spec fn error_subject(e: ParseRegionError) -> Seq<char> {
    match e {
        ParseRegionError::UnknownRegionName(s) => s@,
        ParseRegionError::RepeatedRegionName(s) => s@,
    }
}

/// Once a prefix of a list fails, every longer prefix fails too.
proof fn lemma_region_list_none_extends(ps: Seq<Seq<char>>, n: int)
    requires
        0 <= n <= ps.len(),
        region_list(ps.subrange(0, n)) is None,
    ensures
        region_list(ps) is None,
    decreases ps.len() - n,
{
    if n < ps.len() {
        assert(ps.subrange(0, n + 1).drop_last() =~= ps.subrange(0, n));
        lemma_region_list_none_extends(ps, n + 1);
    } else {
        assert(ps.subrange(0, n) =~= ps);
    }
}

/// A set of regions.
#[derive(Copy, Clone, PartialEq, Eq, Structural, Debug)]
pub struct RegionBitFlags {
    p: bool,
    e: bool,
    j: bool,
    k: bool,
    w: bool,
    c: bool,
}

impl RegionBitFlags {
    /// Whether the set holds `r`.
    pub closed spec fn has(&self, r: Region) -> bool {
        match r {
            Region::P => self.p,
            Region::E => self.e,
            Region::J => self.j,
            Region::K => self.k,
            Region::W => self.w,
            Region::C => self.c,
        }
    }

    /// The regions of the set, in the default order.
    pub open spec fn members(&self) -> Seq<Region> {
        default_order().filter(|r: Region| self.has(r))
    }

    /// The empty set.
    pub fn empty() -> (r: Self)
        ensures
            forall|g: Region| !r.has(g),
    {
        RegionBitFlags { p: false, e: false, j: false, k: false, w: false, c: false }
    }

    /// The set of all regions.
    pub fn all() -> (r: Self)
        ensures
            forall|g: Region| r.has(g),
    {
        RegionBitFlags { p: true, e: true, j: true, k: true, w: true, c: true }
    }

    /// The set that holds `region` alone.
    pub fn from_region(region: Region) -> (r: Self)
        ensures
            forall|g: Region| r.has(g) <==> g == region,
    {
        let mut r = RegionBitFlags::empty();
        r.insert(region);
        r
    }

    /// The set of the regions listed.
    pub fn from_regions(regions: &[Region]) -> (r: Self)
        ensures
            forall|g: Region| r.has(g) <==> regions@.contains(g),
    {
        let mut r = RegionBitFlags::empty();
        let mut i: usize = 0;
        while i < regions.len()
            invariant
                i <= regions@.len(),
                forall|g: Region| r.has(g) <==> (exists|k: int| 0 <= k < i && regions@[k] == g),
            decreases regions@.len() - i,
        {
            r.insert(regions[i]);
            i = i + 1;
            assert forall|g: Region| r.has(g) <==> (exists|k: int| 0 <= k < i && regions@[k] == g) by {
                if g == regions@[i - 1] {
                    assert(regions@[i - 1] == g);
                }
            }
        }
        r
    }

    /// Add `region` to the set.
    pub fn insert(&mut self, region: Region)
        ensures
            forall|g: Region| final(self).has(g) <==> (old(self).has(g) || g == region),
    {
        match region {
            Region::P => self.p = true,
            Region::E => self.e = true,
            Region::J => self.j = true,
            Region::K => self.k = true,
            Region::W => self.w = true,
            Region::C => self.c = true,
        }
    }

    /// Whether the set holds `region`.
    pub fn contains(&self, region: Region) -> (r: bool)
        ensures
            r == self.has(region),
    {
        match region {
            Region::P => self.p,
            Region::E => self.e,
            Region::J => self.j,
            Region::K => self.k,
            Region::W => self.w,
            Region::C => self.c,
        }
    }

    /// Whether the set is empty.
    pub fn is_empty(&self) -> (r: bool)
        ensures
            r == forall|g: Region| !self.has(g),
    {
        let r = !(self.p || self.e || self.j || self.k || self.w || self.c);
        assert(self.has(Region::P) == self.p && self.has(Region::E) == self.e && self.has(Region::J)
            == self.j && self.has(Region::K) == self.k && self.has(Region::W) == self.w
            && self.has(Region::C) == self.c);
        r
    }

    /// The regions of the set, in the default order.
    pub fn to_vec(&self) -> (r: Vec<Region>)
        ensures
            r@ == self.members(),
    {
        let order = Region::default_order();
        let mut r: Vec<Region> = Vec::new();
        let mut i: usize = 0;
        while i < order.len()
            invariant
                i <= order@.len(),
                order@ == default_order(),
                r@ == order@.subrange(0, i as int).filter(|g: Region| self.has(g)),
            decreases order@.len() - i,
        {
            let g = order[i];
            proof {
                let f = |g: Region| self.has(g);
                assert(order@.subrange(0, i + 1).drop_last() =~= order@.subrange(0, i as int));
                order@.subrange(0, i as int).lemma_filter_push(g, f);
                assert(order@.subrange(0, i as int).push(g) =~= order@.subrange(0, i + 1));
            }
            if self.contains(g) {
                r.push(g);
            }
            i = i + 1;
        }
        assert(order@.subrange(0, i as int) =~= order@);
        r
    }
}

} // verus!
