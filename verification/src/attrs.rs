//! The attribute transform: scanning a matched element's attributes,
//! separating the two coordinate attributes, and rebuilding the list with the
//! converted pair at the end.

use vstd::prelude::*;
use crate::Error;
use crate::registry::{Conversion, apply_conversion, conv_text_fn, coord_text_ok, parses_as_float};

verus! {

/// One attribute: its key and its value, the value with XML escapes already
/// resolved.
pub struct Attr {
    pub key: String,
    pub value: String,
}

impl Attr {
    /// The attribute as the pair of its key's and its value's characters.
    pub open spec fn model(self) -> (Seq<char>, Seq<char>) {
        (self.key@, self.value@)
    }
}

/// A list of attributes as the sequence of their models.
pub open spec fn models(attrs: Seq<Attr>) -> Seq<(Seq<char>, Seq<char>)> {
    attrs.map_values(|a: Attr| a.model())
}

/// A whitespace character, as the attribute scanner knows them.
pub open spec fn is_key_ws(c: char) -> bool {
    c == ' ' || c == '\t' || c == '\n' || c == '\r'
}

/// A well-formed attribute key, as the attribute scanner yields them:
/// nonempty, free of whitespace, and free of `=` after its first character —
/// the scanner takes the first character unchecked and ends the name token
/// at the first `=` or whitespace after it. Writing such a key back reads as
/// the same name token.
pub open spec fn wf_key(k: Seq<char>) -> bool {
    k.len() > 0 && (forall|i: int| 0 <= i < k.len() ==> !is_key_ws(#[trigger] k[i])) && (forall|
        i: int,
    |
        1 <= i < k.len() ==> k[i] != '=')
}

/// Every key of the list is well-formed.
pub open spec fn wf_keys(l: Seq<(Seq<char>, Seq<char>)>) -> bool {
    forall|i: int| 0 <= i < l.len() ==> wf_key(#[trigger] l[i].0)
}

/// No two attributes of the list share a key.
pub open spec fn distinct_keys(l: Seq<(Seq<char>, Seq<char>)>) -> bool {
    forall|i: int, j: int| 0 <= i < j < l.len() ==> #[trigger] l[i].0 != #[trigger] l[j].0
}

/// The latitude attribute key.
pub open spec fn lat_key() -> Seq<char> {
    "lat"@
}

/// The longitude attribute key.
pub open spec fn lon_key() -> Seq<char> {
    "lon"@
}

/// Whether a key names one of the two coordinate attributes.
pub open spec fn is_coord_key(k: Seq<char>) -> bool {
    k == lat_key() || k == lon_key()
}

/// What scanning an attribute list yields: a coordinate value that does not
/// parse (the first one, in attribute order, decides), or the non-coordinate
/// attributes in their original order together with the value of the last
/// `lat` and the last `lon`.
pub enum ScanOutcome {
    /// A coordinate value does not parse as a float.
    BadValue,
    /// Every coordinate value present parses.
    Fine {
        others: Seq<(Seq<char>, Seq<char>)>,
        lat: Option<Seq<char>>,
        lon: Option<Seq<char>>,
    },
}

/// Scans an attribute list from the front: a coordinate attribute must parse
/// as a float and is held apart, a later occurrence overriding an earlier
/// one; every other attribute is kept, in order.
pub open spec fn scan(attrs: Seq<(Seq<char>, Seq<char>)>) -> ScanOutcome
    decreases attrs.len(),
{
    if attrs.len() == 0 {
        ScanOutcome::Fine { others: Seq::empty(), lat: None, lon: None }
    } else {
        let a = attrs[0];
        if is_coord_key(a.0) {
            if !parses_as_float(a.1) {
                ScanOutcome::BadValue
            } else {
                match scan(attrs.drop_first()) {
                    ScanOutcome::BadValue => ScanOutcome::BadValue,
                    ScanOutcome::Fine { others, lat, lon } => if a.0 == lat_key() {
                        ScanOutcome::Fine {
                            others,
                            lat: if lat is Some {
                                lat
                            } else {
                                Some(a.1)
                            },
                            lon,
                        }
                    } else {
                        ScanOutcome::Fine {
                            others,
                            lat,
                            lon: if lon is Some {
                                lon
                            } else {
                                Some(a.1)
                            },
                        }
                    },
                }
            }
        } else {
            match scan(attrs.drop_first()) {
                ScanOutcome::Fine { others, lat, lon } => ScanOutcome::Fine {
                    others: seq![a] + others,
                    lat,
                    lon,
                },
                r => r,
            }
        }
    }
}

/// What rewriting a matched element's attribute list yields.
pub enum RewriteSpec {
    /// A coordinate value does not parse as a float.
    BadValue,
    /// Both coordinates were present: the non-coordinate attributes in their
    /// original order, then the converted `lat` and `lon`.
    Changed(Seq<(Seq<char>, Seq<char>)>),
    /// At least one coordinate was missing: the element stays as it is.
    Unchanged,
}

/// The attribute rewrite of one matched element, over a text-level conversion
/// function.
pub open spec fn rewrite_spec(
    attrs: Seq<(Seq<char>, Seq<char>)>,
    f: spec_fn(Seq<char>, Seq<char>) -> (Seq<char>, Seq<char>),
) -> RewriteSpec {
    match scan(attrs) {
        ScanOutcome::BadValue => RewriteSpec::BadValue,
        ScanOutcome::Fine { others, lat: Some(la), lon: Some(lo) } => {
            let p = f(la, lo);
            RewriteSpec::Changed(others.push((lat_key(), p.0)).push((lon_key(), p.1)))
        },
        ScanOutcome::Fine { .. } => RewriteSpec::Unchanged,
    }
}

/// An `Option<String>` as the optional sequence of its characters.
pub open spec fn opt_text(o: Option<String>) -> Option<Seq<char>> {
    match o {
        Option::Some(s) => Some(s@),
        Option::None => None,
    }
}

fn copy_attr(a: &Attr) -> (r: Attr)
    ensures
        r.model() == a.model(),
{
    Attr { key: a.key.clone(), value: a.value.clone() }
}

/// Scans the attribute list from index `i` on, as `scan` does; `pos` is the
/// position reported in a value error.
fn scan_exec(attrs: &Vec<Attr>, i: usize, pos: u64, conv: &Conversion) -> (r: Result<
    (Vec<Attr>, Option<String>, Option<String>),
    Error,
>)
    requires
        i <= attrs@.len(),
        wf_keys(models(attrs@)),
        distinct_keys(models(attrs@)),
    ensures
        ({
            let sc = scan(models(attrs@.skip(i as int)));
            match r {
                Ok((others, lat, lon)) => (sc matches ScanOutcome::Fine { others: o2, lat: l2, lon: n2 }
                    && o2 == models(others@) && l2 == opt_text(lat) && n2 == opt_text(lon))
                    && (lat matches Some(s) ==> parses_as_float(s@)) && (lon matches Some(s)
                    ==> parses_as_float(s@)) && (forall|k: int|
                    0 <= k < others@.len() ==> exists|j: int|
                        i <= j < attrs@.len() && #[trigger] others@[k].model()
                            == attrs@[j].model()) && (forall|k: int|
                    0 <= k < others@.len() ==> !is_coord_key(#[trigger] others@[k].model().0))
                    && distinct_keys(models(others@)),
                Err(e) => e == Error::ValueError(pos) && sc is BadValue,
            }
        }),
    decreases attrs@.len() - i,
{
    proof {
        assert(models(attrs@.skip(i as int)).len() == attrs@.skip(i as int).len());
    }
    if i == attrs.len() {
        let out: Vec<Attr> = Vec::new();
        proof {
            assert(attrs@.skip(i as int) =~= Seq::<Attr>::empty());
            assert(models(attrs@.skip(i as int)) =~= Seq::<(Seq<char>, Seq<char>)>::empty());
            assert(models(out@) =~= Seq::<(Seq<char>, Seq<char>)>::empty());
        }
        Ok((out, None, None))
    } else {
        let a = &attrs[i];
        proof {
            assert(models(attrs@.skip(i as int))[0] == attrs@[i as int].model());
            assert(models(attrs@.skip(i as int)).drop_first() =~= models(
                attrs@.skip(i as int + 1),
            ));
        }
        let is_lat = a.key == "lat".to_owned();
        let is_lon = a.key == "lon".to_owned();
        if is_lat || is_lon {
            if !coord_text_ok(conv, &a.value) {
                Err(Error::ValueError(pos))
            } else {
                let t = a.value.clone();
                match scan_exec(attrs, i + 1, pos, conv) {
                    Err(e) => Err(e),
                    Ok((others, lat, lon)) => {
                        if is_lat {
                            let lat2 = if lat.is_some() {
                                lat
                            } else {
                                Some(t)
                            };
                            Ok((others, lat2, lon))
                        } else {
                            let lon2 = if lon.is_some() {
                                lon
                            } else {
                                Some(t)
                            };
                            Ok((others, lat, lon2))
                        }
                    },
                }
            }
        } else {
            match scan_exec(attrs, i + 1, pos, conv) {
                Err(e) => Err(e),
                Ok((others, lat, lon)) => {
                    let ghost gothers = others@;
                    let mut others2 = others;
                    others2.insert(0, copy_attr(a));
                    proof {
                        assert(others2@.drop_first() =~= gothers);
                        assert(models(others2@) =~= seq![attrs@[i as int].model()] + models(
                            gothers,
                        ));
                        assert forall|k: int| 0 <= k < others2@.len() implies exists|j: int|
                            i <= j < attrs@.len() && #[trigger] others2@[k].model()
                                == attrs@[j].model() by {
                            if k == 0 {
                                assert(others2@[0].model() == attrs@[i as int].model());
                            } else {
                                assert(others2@[k].model() == gothers[k - 1].model());
                            }
                        }
                        assert forall|k: int| 0 <= k < others2@.len() implies !is_coord_key(
                            #[trigger] others2@[k].model().0,
                        ) by {
                            if k > 0 {
                                assert(others2@[k].model() == gothers[k - 1].model());
                                assert(!is_coord_key(gothers[k - 1].model().0));
                            }
                        }
                        assert forall|k1: int, k2: int|
                            0 <= k1 < k2 < models(others2@).len() implies #[trigger] models(
                            others2@,
                        )[k1].0 != #[trigger] models(others2@)[k2].0 by {
                            if k1 == 0 {
                                let j2 = choose|j: int|
                                    i + 1 <= j < attrs@.len() && gothers[k2 - 1].model()
                                        == attrs@[j as int].model();
                                assert(models(attrs@)[i as int].0 != models(attrs@)[j2].0);
                                assert(models(others2@)[k2] == gothers[k2 - 1].model());
                                assert(models(others2@)[0] == attrs@[i as int].model());
                            } else {
                                assert(models(gothers)[k1 - 1].0 != models(gothers)[k2 - 1].0);
                                assert(models(others2@)[k1] == gothers[k1 - 1].model());
                                assert(models(others2@)[k2] == gothers[k2 - 1].model());
                            }
                        }
                    }
                    Ok((others2, lat, lon))
                },
            }
        }
    }
}

/// What rewriting one matched element returns to the router.
pub enum Rewrite {
    /// Both coordinates were present and parsed: the rebuilt attribute list.
    Changed(Vec<Attr>),
    /// At least one coordinate was missing: emit the element as it came.
    Unchanged,
}

/// Rewrites the attribute list of one element matched at the full target
/// path: exactly `rewrite_spec` of the list under the conversion's text
/// function, a value failure carrying the element's position `pos`. The list
/// must carry well-formed, pairwise distinct keys, as an attribute parse
/// yields them; a rebuilt list carries such keys again.
pub fn rewrite_attrs(attrs: &Vec<Attr>, pos: u64, conv: &Conversion) -> (r: Result<Rewrite, Error>)
    requires
        wf_keys(models(attrs@)),
        distinct_keys(models(attrs@)),
    ensures
        ({
            let rs = rewrite_spec(models(attrs@), conv_text_fn(*conv));
            match r {
                Ok(rw) => match rw {
                    Rewrite::Changed(v) => rs == RewriteSpec::Changed(models(v@)) && wf_keys(
                        models(v@),
                    ) && distinct_keys(models(v@)),
                    Rewrite::Unchanged => rs is Unchanged,
                },
                Err(e) => e == Error::ValueError(pos) && rs is BadValue,
            }
        }),
{
    proof {
        assert(attrs@.skip(0) =~= attrs@);
    }
    match scan_exec(attrs, 0, pos, conv) {
        Err(e) => Err(e),
        Ok((others, lat, lon)) => {
            match (lat, lon) {
                (Some(la), Some(lo)) => {
                    match apply_conversion(conv, &la, &lo) {
                        Some(p) => {
                            let ghost gothers = others@;
                            let ghost gp = (p.0@, p.1@);
                            let (va, vb) = p;
                            let mut out = others;
                            out.push(Attr { key: "lat".to_owned(), value: va });
                            out.push(Attr { key: "lon".to_owned(), value: vb });
                            proof {
                                assert(models(out@) =~= models(gothers).push(
                                    (lat_key(), gp.0),
                                ).push((lon_key(), gp.1)));
                                assert forall|k: int|
                                    0 <= k < models(gothers).len() implies exists|j: int|
                                    0 <= j < models(attrs@).len() && #[trigger] models(
                                    gothers,
                                )[k] == models(attrs@)[j] by {
                                    let j = choose|j: int|
                                        0 <= j < attrs@.len() && gothers[k].model()
                                            == attrs@[j as int].model();
                                    assert(models(gothers)[k] == models(attrs@)[j]);
                                }
                                assert forall|k: int|
                                    0 <= k < models(gothers).len() implies !is_coord_key(
                                    #[trigger] models(gothers)[k].0,
                                ) by {
                                    assert(!is_coord_key(gothers[k].model().0));
                                }
                                lemma_rebuilt_keys(models(gothers), gp.0, gp.1, models(attrs@));
                            }
                            Ok(Rewrite::Changed(out))
                        },
                        None => {
                            proof {
                                assert(false);
                            }
                            Err(Error::ValueError(pos))
                        },
                    }
                },
                (la, lo) => {
                    proof {
                        assert(!(opt_text(la) is Some && opt_text(lo) is Some));
                    }
                    Ok(Rewrite::Unchanged)
                },
            }
        },
    }
}

/// A kept-attribute list drawn element-wise from a well-keyed list, extended
/// by the two coordinate keys, is well-keyed again.
proof fn lemma_rebuilt_keys(
    others: Seq<(Seq<char>, Seq<char>)>,
    va: Seq<char>,
    vb: Seq<char>,
    source: Seq<(Seq<char>, Seq<char>)>,
)
    requires
        wf_keys(source),
        distinct_keys(source),
        forall|k: int| 0 <= k < others.len() ==> exists|j: int|
            0 <= j < source.len() && #[trigger] others[k] == source[j],
        forall|k: int| 0 <= k < others.len() ==> !is_coord_key(#[trigger] others[k].0),
        distinct_keys(others),
    ensures
        wf_keys(others.push((lat_key(), va)).push((lon_key(), vb))),
        distinct_keys(others.push((lat_key(), va)).push((lon_key(), vb))),
{
    let w = others.push((lat_key(), va)).push((lon_key(), vb));
    reveal_strlit("lat");
    reveal_strlit("lon");
    assert(wf_key(lat_key())) by {
        assert(lat_key().len() == 3);
        assert forall|i: int| 0 <= i < lat_key().len() implies !is_key_ws(lat_key()[i]) by {
            assert(lat_key()[0] == 'l' && lat_key()[1] == 'a' && lat_key()[2] == 't');
        }
        assert forall|i: int| 1 <= i < lat_key().len() implies lat_key()[i] != '=' by {
            assert(lat_key()[1] == 'a' && lat_key()[2] == 't');
        }
    }
    assert(wf_key(lon_key())) by {
        assert(lon_key().len() == 3);
        assert forall|i: int| 0 <= i < lon_key().len() implies !is_key_ws(lon_key()[i]) by {
            assert(lon_key()[0] == 'l' && lon_key()[1] == 'o' && lon_key()[2] == 'n');
        }
        assert forall|i: int| 1 <= i < lon_key().len() implies lon_key()[i] != '=' by {
            assert(lon_key()[1] == 'o' && lon_key()[2] == 'n');
        }
    }
    assert(lat_key()[1] != lon_key()[1]);
    assert forall|i: int| 0 <= i < w.len() implies wf_key(#[trigger] w[i].0) by {
        if i < others.len() {
            let j = choose|j: int| 0 <= j < source.len() && others[i] == source[j];
            assert(wf_key(source[j].0));
        }
    }
    assert forall|i: int, j: int|
        0 <= i < j < w.len() implies #[trigger] w[i].0 != #[trigger] w[j].0 by {
        if j < others.len() {
        } else if i < others.len() {
            assert(!is_coord_key(others[i].0));
        } else {
            assert(w[i].0 == lat_key() && w[j].0 == lon_key());
        }
    }
}

} // verus!
