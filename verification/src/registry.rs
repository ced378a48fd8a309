//! The registry of coordinate conversions: six directions among the three
//! geodetic systems WGS-84, GCJ-02 and BD-09, keyed by short identifiers.

use vstd::prelude::*;

verus! {

/// One of the six supported conversion directions.
#[derive(Clone, Copy, PartialEq, Eq, Structural, Debug)]
pub enum Conversion {
    BdToGcj,
    BdToWgs,
    GcjToBd,
    GcjToWgs,
    WgsToBd,
    WgsToGcj,
}

/// Whether a text is accepted by Rust's standard float parser, which takes
/// the decimal forms and also the infinity and not-a-number spellings.
pub uninterp spec fn parses_as_float(s: Seq<char>) -> bool;

/// The decimal texts of `undrift_gps::bd_to_gcj` applied to the numbers the
/// two texts denote; defined only where both texts parse as floats.
pub uninterp spec fn bd_to_gcj_text(lat: Seq<char>, lon: Seq<char>) -> (Seq<char>, Seq<char>);

/// As `bd_to_gcj_text`, for `undrift_gps::bd_to_wgs`.
pub uninterp spec fn bd_to_wgs_text(lat: Seq<char>, lon: Seq<char>) -> (Seq<char>, Seq<char>);

/// As `bd_to_gcj_text`, for `undrift_gps::gcj_to_bd`.
pub uninterp spec fn gcj_to_bd_text(lat: Seq<char>, lon: Seq<char>) -> (Seq<char>, Seq<char>);

/// As `bd_to_gcj_text`, for `undrift_gps::gcj_to_wgs`.
pub uninterp spec fn gcj_to_wgs_text(lat: Seq<char>, lon: Seq<char>) -> (Seq<char>, Seq<char>);

/// As `bd_to_gcj_text`, for `undrift_gps::wgs_to_bd`.
pub uninterp spec fn wgs_to_bd_text(lat: Seq<char>, lon: Seq<char>) -> (Seq<char>, Seq<char>);

/// As `bd_to_gcj_text`, for `undrift_gps::wgs_to_gcj`.
pub uninterp spec fn wgs_to_gcj_text(lat: Seq<char>, lon: Seq<char>) -> (Seq<char>, Seq<char>);

/// The text-level function of a conversion: from the decimal texts of a
/// coordinate pair to the decimal texts of the converted pair.
pub open spec fn conv_text_fn(c: Conversion) -> spec_fn(Seq<char>, Seq<char>) -> (Seq<char>, Seq<char>) {
    |lat: Seq<char>, lon: Seq<char>|
        match c {
            Conversion::BdToGcj => bd_to_gcj_text(lat, lon),
            Conversion::BdToWgs => bd_to_wgs_text(lat, lon),
            Conversion::GcjToBd => gcj_to_bd_text(lat, lon),
            Conversion::GcjToWgs => gcj_to_wgs_text(lat, lon),
            Conversion::WgsToBd => wgs_to_bd_text(lat, lon),
            Conversion::WgsToGcj => wgs_to_gcj_text(lat, lon),
        }
}


/// Relies on `undrift_gps::bd_to_gcj`, a pure function of its two double
/// arguments, together with `str::parse` for doubles and the double's
/// `Display`.
#[verifier::external_body]
fn bd_to_gcj_exec(lat: &String, lon: &String) -> (r: Option<(String, String)>)
    ensures
        r is Some <==> (parses_as_float(lat@) && parses_as_float(lon@)),
        (r matches Some(p) ==> p.0@ == bd_to_gcj_text(lat@, lon@).0 && p.1@ == bd_to_gcj_text(
            lat@,
            lon@,
        ).1),
{
    match (lat.parse(), lon.parse()) {
        (Ok(a), Ok(b)) => {
            let (x, y) = undrift_gps::bd_to_gcj(a, b);
            Some((x.to_string(), y.to_string()))
        },
        _ => None,
    }
}

/// Relies on `undrift_gps::bd_to_wgs`, as `bd_to_gcj_exec` does on its function.
#[verifier::external_body]
fn bd_to_wgs_exec(lat: &String, lon: &String) -> (r: Option<(String, String)>)
    ensures
        r is Some <==> (parses_as_float(lat@) && parses_as_float(lon@)),
        (r matches Some(p) ==> p.0@ == bd_to_wgs_text(lat@, lon@).0 && p.1@ == bd_to_wgs_text(
            lat@,
            lon@,
        ).1),
{
    match (lat.parse(), lon.parse()) {
        (Ok(a), Ok(b)) => {
            let (x, y) = undrift_gps::bd_to_wgs(a, b);
            Some((x.to_string(), y.to_string()))
        },
        _ => None,
    }
}

/// Relies on `undrift_gps::gcj_to_bd`, as `bd_to_gcj_exec` does on its function.
#[verifier::external_body]
fn gcj_to_bd_exec(lat: &String, lon: &String) -> (r: Option<(String, String)>)
    ensures
        r is Some <==> (parses_as_float(lat@) && parses_as_float(lon@)),
        (r matches Some(p) ==> p.0@ == gcj_to_bd_text(lat@, lon@).0 && p.1@ == gcj_to_bd_text(
            lat@,
            lon@,
        ).1),
{
    match (lat.parse(), lon.parse()) {
        (Ok(a), Ok(b)) => {
            let (x, y) = undrift_gps::gcj_to_bd(a, b);
            Some((x.to_string(), y.to_string()))
        },
        _ => None,
    }
}

/// Relies on `undrift_gps::gcj_to_wgs`, as `bd_to_gcj_exec` does on its function.
#[verifier::external_body]
fn gcj_to_wgs_exec(lat: &String, lon: &String) -> (r: Option<(String, String)>)
    ensures
        r is Some <==> (parses_as_float(lat@) && parses_as_float(lon@)),
        (r matches Some(p) ==> p.0@ == gcj_to_wgs_text(lat@, lon@).0 && p.1@ == gcj_to_wgs_text(
            lat@,
            lon@,
        ).1),
{
    match (lat.parse(), lon.parse()) {
        (Ok(a), Ok(b)) => {
            let (x, y) = undrift_gps::gcj_to_wgs(a, b);
            Some((x.to_string(), y.to_string()))
        },
        _ => None,
    }
}

/// Relies on `undrift_gps::wgs_to_bd`, as `bd_to_gcj_exec` does on its function.
#[verifier::external_body]
fn wgs_to_bd_exec(lat: &String, lon: &String) -> (r: Option<(String, String)>)
    ensures
        r is Some <==> (parses_as_float(lat@) && parses_as_float(lon@)),
        (r matches Some(p) ==> p.0@ == wgs_to_bd_text(lat@, lon@).0 && p.1@ == wgs_to_bd_text(
            lat@,
            lon@,
        ).1),
{
    match (lat.parse(), lon.parse()) {
        (Ok(a), Ok(b)) => {
            let (x, y) = undrift_gps::wgs_to_bd(a, b);
            Some((x.to_string(), y.to_string()))
        },
        _ => None,
    }
}

/// Relies on `undrift_gps::wgs_to_gcj`, as `bd_to_gcj_exec` does on its function.
#[verifier::external_body]
fn wgs_to_gcj_exec(lat: &String, lon: &String) -> (r: Option<(String, String)>)
    ensures
        r is Some <==> (parses_as_float(lat@) && parses_as_float(lon@)),
        (r matches Some(p) ==> p.0@ == wgs_to_gcj_text(lat@, lon@).0 && p.1@ == wgs_to_gcj_text(
            lat@,
            lon@,
        ).1),
{
    match (lat.parse(), lon.parse()) {
        (Ok(a), Ok(b)) => {
            let (x, y) = undrift_gps::wgs_to_gcj(a, b);
            Some((x.to_string(), y.to_string()))
        },
        _ => None,
    }
}

/// Applies a conversion to the decimal texts of a coordinate pair. Returns the
/// converted pair's texts, or `None` exactly when one of the texts is not a
/// valid float literal.
pub fn apply_conversion(c: &Conversion, lat: &String, lon: &String) -> (r: Option<(String, String)>)
    ensures
        r is Some <==> (parses_as_float(lat@) && parses_as_float(lon@)),
        (r matches Some(p) ==> (p.0@, p.1@) == conv_text_fn(*c)(lat@, lon@)),
{
    match c {
        Conversion::BdToGcj => bd_to_gcj_exec(lat, lon),
        Conversion::BdToWgs => bd_to_wgs_exec(lat, lon),
        Conversion::GcjToBd => gcj_to_bd_exec(lat, lon),
        Conversion::GcjToWgs => gcj_to_wgs_exec(lat, lon),
        Conversion::WgsToBd => wgs_to_bd_exec(lat, lon),
        Conversion::WgsToGcj => wgs_to_gcj_exec(lat, lon),
    }
}

/// Decides whether a text is a valid float literal. The answer does not
/// depend on the conversion passed in; one is needed only to reach the
/// parser.
pub fn coord_text_ok(c: &Conversion, s: &String) -> (r: bool)
    ensures
        r == parses_as_float(s@),
{
    apply_conversion(c, s, s).is_some()
}

/// The six registered identifiers, in order.
pub open spec fn spec_conversion_ids() -> Seq<Seq<char>> {
    seq!["bd-gcj"@, "bd-wgs"@, "gcj-bd"@, "gcj-wgs"@, "wgs-bd"@, "wgs-gcj"@]
}

/// Lists the six registered identifiers, in order.
pub fn conversion_ids() -> (r: Vec<&'static str>)
    ensures
        r@.map_values(|s: &'static str| s@) == spec_conversion_ids(),
{
    let mut v: Vec<&'static str> = Vec::new();
    v.push("bd-gcj");
    v.push("bd-wgs");
    v.push("gcj-bd");
    v.push("gcj-wgs");
    v.push("wgs-bd");
    v.push("wgs-gcj");
    proof {
        assert(v@.map_values(|s: &'static str| s@) =~= spec_conversion_ids());
    }
    v
}

/// The identifier of each conversion, looked up by exact match.
pub open spec fn spec_lookup(name: Seq<char>) -> Option<Conversion> {
    if name == "bd-gcj"@ {
        Some(Conversion::BdToGcj)
    } else if name == "bd-wgs"@ {
        Some(Conversion::BdToWgs)
    } else if name == "gcj-bd"@ {
        Some(Conversion::GcjToBd)
    } else if name == "gcj-wgs"@ {
        Some(Conversion::GcjToWgs)
    } else if name == "wgs-bd"@ {
        Some(Conversion::WgsToBd)
    } else if name == "wgs-gcj"@ {
        Some(Conversion::WgsToGcj)
    } else {
        None
    }
}

/// Finds the conversion registered under an identifier, by exact string match.
pub fn lookup_conversion(name: &str) -> (r: Option<Conversion>)
    ensures
        r == spec_lookup(name@),
{
    let n = name.to_owned();
    if n == "bd-gcj".to_owned() {
        Some(Conversion::BdToGcj)
    } else if n == "bd-wgs".to_owned() {
        Some(Conversion::BdToWgs)
    } else if n == "gcj-bd".to_owned() {
        Some(Conversion::GcjToBd)
    } else if n == "gcj-wgs".to_owned() {
        Some(Conversion::GcjToWgs)
    } else if n == "wgs-bd".to_owned() {
        Some(Conversion::WgsToBd)
    } else if n == "wgs-gcj".to_owned() {
        Some(Conversion::WgsToGcj)
    } else {
        None
    }
}

} // verus!
