//! The textual form of a manifest: a JSON-shaped record holding a quoted
//! `name`, a quoted `version` and an optional `dependencies` table of
//! quoted pairs. The writer emits the canonical compact form
//! `{"name":NAME,"version":VERSION,"dependencies":{KEY:CONSTRAINT,...}}`;
//! the parser also tolerates whitespace, any field order, and unknown
//! fields (a `description`, say), which it ignores. Strings stand
//! verbatim between their quotes — escape sequences are not part of the
//! format, so well-formed manifests hold only bytes that need no
//! escaping. The writer and the parser are proved to invert each other.

use vstd::prelude::*;

use crate::PkgError;
use crate::manifest::{
    Dep, Manifest, ManifestModel, deps_view, keys_unique, manifest_wf, str_ok, text_ok, vec_u8_eq,
};

verus! {

/// The opening bytes of the record: `{"name":`.
pub open spec fn lit_open() -> Seq<u8> {
    seq![123u8, 34u8, 110u8, 97u8, 109u8, 101u8, 34u8, 58u8]
}

/// The bytes between the name and the version: `,"version":`.
pub open spec fn lit_version() -> Seq<u8> {
    seq![44u8, 34u8, 118u8, 101u8, 114u8, 115u8, 105u8, 111u8, 110u8, 34u8, 58u8]
}

/// The bytes between the version and the dependency map: `,"dependencies":{`.
pub open spec fn lit_deps() -> Seq<u8> {
    seq![
        44u8,
        34u8,
        100u8,
        101u8,
        112u8,
        101u8,
        110u8,
        100u8,
        101u8,
        110u8,
        99u8,
        105u8,
        101u8,
        115u8,
        34u8,
        58u8,
        123u8,
    ]
}

/// A string in quotes.
pub open spec fn emit_string(s: Seq<u8>) -> Seq<u8> {
    seq![34u8] + s + seq![34u8]
}

/// One dependency record: `KEY:CONSTRAINT`, both quoted.
pub open spec fn emit_pair(p: (Seq<u8>, Seq<u8>)) -> Seq<u8> {
    emit_string(p.0) + seq![58u8] + emit_string(p.1)
}

/// The dependency records, separated by commas.
pub open spec fn emit_deps(deps: Seq<(Seq<u8>, Seq<u8>)>) -> Seq<u8>
    decreases deps.len(),
{
    if deps.len() == 0 {
        Seq::empty()
    } else if deps.len() == 1 {
        emit_pair(deps[0])
    } else {
        emit_pair(deps[0]) + seq![44u8] + emit_deps(deps.drop_first())
    }
}

/// The whole manifest text.
pub open spec fn emit_manifest(m: ManifestModel) -> Seq<u8> {
    lit_open() + emit_string(m.name) + lit_version() + emit_string(m.version) + lit_deps()
        + emit_deps(m.deps) + seq![125u8, 125u8]
}

/// Appends the bytes of `s` to `out`.
fn push_bytes(out: &mut Vec<u8>, s: &Vec<u8>)
    ensures
        final(out)@ == old(out)@ + s@,
{
    let n = s.len();
    for i in 0..n
        invariant
            n == s@.len(),
            out@ == old(out)@ + s@.take(i as int),
    {
        out.push(s[i]);
        proof {
            assert(old(out)@ + s@.take(i as int) + seq![s@[i as int]] =~= old(out)@ + s@.take(
                i as int + 1,
            ));
        }
    }
    proof {
        assert(old(out)@ + s@.take(n as int) =~= old(out)@ + s@);
    }
}

/// Appends `s` in quotes.
fn push_quoted(out: &mut Vec<u8>, s: &Vec<u8>)
    ensures
        final(out)@ == old(out)@ + emit_string(s@),
{
    out.push(34);
    push_bytes(out, s);
    out.push(34);
    proof {
        assert(final(out)@ =~= old(out)@ + emit_string(s@));
    }
}

/// The comma-separated dependency list grows at its tail.
proof fn lemma_emit_deps_push(deps: Seq<(Seq<u8>, Seq<u8>)>, d: (Seq<u8>, Seq<u8>))
    ensures
        deps.len() == 0 ==> emit_deps(deps.push(d)) == emit_pair(d),
        deps.len() > 0 ==> emit_deps(deps.push(d)) == emit_deps(deps) + seq![44u8] + emit_pair(d),
    decreases deps.len(),
{
    if deps.len() == 0 {
        assert(deps.push(d).len() == 1);
        assert(deps.push(d)[0] == d);
    } else {
        lemma_emit_deps_push(deps.drop_first(), d);
        assert(deps.push(d).drop_first() =~= deps.drop_first().push(d));
        if deps.len() == 1 {
            assert(emit_deps(deps.push(d)) == emit_pair(deps[0]) + seq![44u8] + emit_deps(
                deps.drop_first().push(d),
            ));
            assert(emit_deps(deps.drop_first().push(d)) == emit_pair(d));
        } else {
            assert(emit_deps(deps.push(d)) == emit_pair(deps[0]) + seq![44u8] + emit_deps(
                deps.drop_first().push(d),
            ));
            assert(emit_deps(deps.drop_first().push(d)) == emit_deps(deps.drop_first())
                + seq![44u8] + emit_pair(d));
            assert(emit_pair(deps[0]) + seq![44u8] + (emit_deps(deps.drop_first()) + seq![44u8]
                + emit_pair(d)) =~= (emit_pair(deps[0]) + seq![44u8] + emit_deps(deps.drop_first()))
                + seq![44u8] + emit_pair(d));
        }
    }
}

/// A byte that may stand between tokens: space, tab, line feed or
/// carriage return.
pub open spec fn ws_byte(c: u8) -> bool {
    c == 32 || c == 9 || c == 10 || c == 13
}

/// The first position at or after `j` whose byte is not whitespace (or
/// the end of the text).
pub open spec fn ws_end(b: Seq<u8>, j: int) -> int
    decreases b.len() - j,
{
    if j < 0 || j >= b.len() || !ws_byte(b[j]) {
        j
    } else {
        ws_end(b, j + 1)
    }
}

/// The whitespace scan never goes backwards.
proof fn lemma_ws_end_ge(b: Seq<u8>, j: int)
    ensures
        ws_end(b, j) >= j,
    decreases b.len() - j,
{
    if !(j < 0 || j >= b.len() || !ws_byte(b[j])) {
        lemma_ws_end_ge(b, j + 1);
    }
}

/// The whitespace scan never passes the end of the text.
proof fn lemma_ws_end_le(b: Seq<u8>, j: int)
    requires
        j <= b.len(),
    ensures
        ws_end(b, j) <= b.len(),
    decreases b.len() - j,
{
    if !(j < 0 || j >= b.len() || !ws_byte(b[j])) {
        lemma_ws_end_le(b, j + 1);
    }
}

/// Where the whitespace scan stops: after a run of whitespace, at the
/// first byte that is none (or at the end).
proof fn lemma_ws_end_at(b: Seq<u8>, j: int, e: int)
    requires
        0 <= j <= e <= b.len(),
        forall|k: int| j <= k < e ==> ws_byte(b[k]),
        e == b.len() || !ws_byte(b[e]),
    ensures
        ws_end(b, j) == e,
    decreases e - j,
{
    if j == e {
    } else {
        lemma_ws_end_at(b, j + 1, e);
    }
}

/// The first position at or after `j` whose byte may not stand inside
/// quotes (or the end of the text).
pub open spec fn str_end(b: Seq<u8>, j: int) -> int
    decreases b.len() - j,
{
    if j < 0 || j >= b.len() || !text_ok(b[j]) {
        j
    } else {
        str_end(b, j + 1)
    }
}

/// A quoted string read at position `i`: its bytes and the position
/// after its closing quote.
pub open spec fn parse_string_at(b: Seq<u8>, i: int) -> Option<(Seq<u8>, int)> {
    if 0 <= i < b.len() && b[i] == 34 {
        let e = str_end(b, i + 1);
        if e < b.len() && b[e] == 34 {
            Some((b.subrange(i + 1, e), e + 1))
        } else {
            None
        }
    } else {
        None
    }
}

/// The scan for the end of a string never goes backwards.
proof fn lemma_str_end_ge(b: Seq<u8>, j: int)
    ensures
        str_end(b, j) >= j,
    decreases b.len() - j,
{
    if !(j < 0 || j >= b.len() || !text_ok(b[j])) {
        lemma_str_end_ge(b, j + 1);
    }
}

/// Where the scan stops: after a run of in-string bytes, at the first
/// byte that may not stand inside quotes (or at the end).
proof fn lemma_str_end_at(b: Seq<u8>, j: int, e: int)
    requires
        0 <= j <= e <= b.len(),
        forall|k: int| j <= k < e ==> text_ok(b[k]),
        e == b.len() || !text_ok(b[e]),
    ensures
        str_end(b, j) == e,
    decreases e - j,
{
    if j == e {
    } else {
        lemma_str_end_at(b, j + 1, e);
    }
}

/// One or more `KEY:CONSTRAINT` records separated by commas and closed
/// by a brace, whitespace allowed between tokens; the position given
/// must stand on the first key's quote.
pub open spec fn parse_pairs(b: Seq<u8>, i: int) -> Option<(Seq<(Seq<u8>, Seq<u8>)>, int)>
    decreases b.len() - i,
    via parse_pairs_decreases
{
    match parse_string_at(b, i) {
        None => None,
        Some((k, i1)) => {
            let i2 = ws_end(b, i1);
            if i2 < b.len() && b[i2] == 58 {
                match parse_string_at(b, ws_end(b, i2 + 1)) {
                    None => None,
                    Some((v, i3)) => {
                        let i4 = ws_end(b, i3);
                        if i4 < b.len() && b[i4] == 44 {
                            match parse_pairs(b, ws_end(b, i4 + 1)) {
                                None => None,
                                Some((rest, i5)) => Some((seq![(k, v)] + rest, i5)),
                            }
                        } else if i4 < b.len() && b[i4] == 125 {
                            Some((seq![(k, v)], i4 + 1))
                        } else {
                            None
                        }
                    },
                }
            } else {
                None
            }
        },
    }
}

#[via_fn]
proof fn parse_pairs_decreases(b: Seq<u8>, i: int) {
    lemma_str_end_ge(b, i + 1);
    if 0 <= i < b.len() && b[i] == 34 {
        let e1 = str_end(b, i + 1);
        lemma_ws_end_ge(b, e1 + 1);
        let i2 = ws_end(b, e1 + 1);
        lemma_ws_end_ge(b, i2 + 1);
        let s2 = ws_end(b, i2 + 1);
        lemma_str_end_ge(b, s2 + 1);
        let e2 = str_end(b, s2 + 1);
        lemma_ws_end_ge(b, e2 + 1);
        let i4 = ws_end(b, e2 + 1);
        lemma_ws_end_ge(b, i4 + 1);
        if i4 < b.len() {
            lemma_ws_end_le(b, i4 + 1);
        }
    }
}

/// A record list read at a position ends strictly behind it.
proof fn lemma_parse_pairs_advances(b: Seq<u8>, i: int)
    ensures
        parse_pairs(b, i) matches Some(p) ==> i < p.1 <= b.len(),
    decreases b.len() - i,
{
    lemma_str_end_ge(b, i + 1);
    if 0 <= i < b.len() && b[i] == 34 {
        let e1 = str_end(b, i + 1);
        if e1 < b.len() && b[e1] == 34 {
            let i1 = e1 + 1;
            lemma_ws_end_ge(b, i1);
            let i2 = ws_end(b, i1);
            if i2 < b.len() && b[i2] == 58 {
                lemma_ws_end_ge(b, i2 + 1);
                let s2 = ws_end(b, i2 + 1);
                lemma_str_end_ge(b, s2 + 1);
                let e2 = str_end(b, s2 + 1);
                if 0 <= s2 < b.len() && b[s2] == 34 && e2 < b.len() && b[e2] == 34 {
                    let i3 = e2 + 1;
                    lemma_ws_end_ge(b, i3);
                    let i4 = ws_end(b, i3);
                    if i4 < b.len() && b[i4] == 44 {
                        lemma_ws_end_ge(b, i4 + 1);
                        lemma_ws_end_le(b, i4 + 1);
                        lemma_parse_pairs_advances(b, ws_end(b, i4 + 1));
                    }
                }
            }
        }
    }
}

/// The dependency map after its opening brace: either closed at once,
/// or a list of records.
pub open spec fn parse_deps_at(b: Seq<u8>, i: int) -> Option<(Seq<(Seq<u8>, Seq<u8>)>, int)> {
    let j = ws_end(b, i);
    if j < b.len() && b[j] == 125 {
        Some((Seq::empty(), j + 1))
    } else {
        parse_pairs(b, j)
    }
}

/// One field value: quoted text, or a flat table of quoted pairs (the
/// shape of the dependency map).
pub ghost enum FieldValue {
    Text(Seq<u8>),
    Table(Seq<(Seq<u8>, Seq<u8>)>),
}

/// A field value read at a position: a string, or a braced table.
pub open spec fn parse_value_at(b: Seq<u8>, i: int) -> Option<(FieldValue, int)> {
    if 0 <= i < b.len() && b[i] == 34 {
        match parse_string_at(b, i) {
            None => None,
            Some((t, j)) => Some((FieldValue::Text(t), j)),
        }
    } else if 0 <= i < b.len() && b[i] == 123 {
        match parse_deps_at(b, i + 1) {
            None => None,
            Some((ps, j)) => Some((FieldValue::Table(ps), j)),
        }
    } else {
        None
    }
}

/// A field value read at a position ends strictly behind it.
proof fn lemma_parse_value_advances(b: Seq<u8>, i: int)
    ensures
        parse_value_at(b, i) matches Some(p) ==> i < p.1 <= b.len(),
{
    lemma_str_end_ge(b, i + 1);
    if 0 <= i < b.len() && b[i] == 123 {
        lemma_ws_end_ge(b, i + 1);
        lemma_parse_pairs_advances(b, ws_end(b, i + 1));
    }
}

/// The fields of the record object, read until its closing brace:
/// `KEY:VALUE` records separated by commas, whitespace allowed, in the
/// order they stand in the text.
pub open spec fn parse_fields(b: Seq<u8>, i: int) -> Option<(Seq<(Seq<u8>, FieldValue)>, int)>
    decreases b.len() - i,
    via parse_fields_decreases
{
    match parse_string_at(b, i) {
        None => None,
        Some((k, i1)) => {
            let i2 = ws_end(b, i1);
            if i2 < b.len() && b[i2] == 58 {
                match parse_value_at(b, ws_end(b, i2 + 1)) {
                    None => None,
                    Some((v, i3)) => {
                        let i4 = ws_end(b, i3);
                        if i4 < b.len() && b[i4] == 44 {
                            match parse_fields(b, ws_end(b, i4 + 1)) {
                                None => None,
                                Some((rest, i5)) => Some((seq![(k, v)] + rest, i5)),
                            }
                        } else if i4 < b.len() && b[i4] == 125 {
                            Some((seq![(k, v)], i4 + 1))
                        } else {
                            None
                        }
                    },
                }
            } else {
                None
            }
        },
    }
}

#[via_fn]
proof fn parse_fields_decreases(b: Seq<u8>, i: int) {
    lemma_str_end_ge(b, i + 1);
    if 0 <= i < b.len() && b[i] == 34 {
        let e1 = str_end(b, i + 1);
        lemma_ws_end_ge(b, e1 + 1);
        let i2 = ws_end(b, e1 + 1);
        lemma_ws_end_ge(b, i2 + 1);
        let sv = ws_end(b, i2 + 1);
        lemma_parse_value_advances(b, sv);
        match parse_value_at(b, sv) {
            Some(p) => {
                lemma_ws_end_ge(b, p.1);
                let i4 = ws_end(b, p.1);
                lemma_ws_end_ge(b, i4 + 1);
                if i4 < b.len() {
                    lemma_ws_end_le(b, i4 + 1);
                }
            },
            None => {},
        }
    }
}

/// The value of the first field under this key.
pub open spec fn field_lookup(fields: Seq<(Seq<u8>, FieldValue)>, key: Seq<u8>) -> Option<
    FieldValue,
>
    decreases fields.len(),
{
    if fields.len() == 0 {
        None
    } else if fields[0].0 == key {
        Some(fields[0].1)
    } else {
        field_lookup(fields.drop_first(), key)
    }
}

/// How many fields carry this key.
pub open spec fn field_count(fields: Seq<(Seq<u8>, FieldValue)>, key: Seq<u8>) -> int
    decreases fields.len(),
{
    if fields.len() == 0 {
        0
    } else if fields[0].0 == key {
        1 + field_count(fields.drop_first(), key)
    } else {
        field_count(fields.drop_first(), key)
    }
}

/// A key is found exactly when some field carries it.
proof fn lemma_field_count_lookup(fields: Seq<(Seq<u8>, FieldValue)>, key: Seq<u8>)
    ensures
        field_count(fields, key) > 0 <==> field_lookup(fields, key) is Some,
        field_count(fields, key) >= 0,
    decreases fields.len(),
{
    if fields.len() > 0 {
        lemma_field_count_lookup(fields.drop_first(), key);
    }
}

/// The field name `name`.
pub open spec fn name_key() -> Seq<u8> {
    seq![110u8, 97u8, 109u8, 101u8]
}

/// The field name `version`.
pub open spec fn version_key() -> Seq<u8> {
    seq![118u8, 101u8, 114u8, 115u8, 105u8, 111u8, 110u8]
}

/// The field name `dependencies`.
pub open spec fn dependencies_key() -> Seq<u8> {
    seq![100u8, 101u8, 112u8, 101u8, 110u8, 100u8, 101u8, 110u8, 99u8, 105u8, 101u8, 115u8]
}

/// The manifest the record's fields describe: exactly one `name` and
/// one `version`, each quoted text; at most one `dependencies`, a
/// table, absence meaning no dependencies; any other field is ignored.
pub open spec fn manifest_of_fields(fields: Seq<(Seq<u8>, FieldValue)>) -> Option<ManifestModel> {
    match (field_lookup(fields, name_key()), field_lookup(fields, version_key())) {
        (Some(FieldValue::Text(name)), Some(FieldValue::Text(version))) => if field_count(
            fields,
            name_key(),
        ) == 1 && field_count(fields, version_key()) == 1 {
            match field_lookup(fields, dependencies_key()) {
                None => Some(ManifestModel { name, version, deps: Seq::empty() }),
                Some(FieldValue::Table(deps)) => if field_count(fields, dependencies_key()) == 1 {
                    Some(ManifestModel { name, version, deps })
                } else {
                    None
                },
                Some(FieldValue::Text(_)) => None,
            }
        } else {
            None
        },
        _ => None,
    }
}

/// The whole manifest text: one record object, whitespace allowed
/// around and inside it, consumed exactly.
pub open spec fn parse_manifest_text(b: Seq<u8>) -> Option<ManifestModel> {
    let i0 = ws_end(b, 0);
    if i0 < b.len() && b[i0] == 123 {
        let i1 = ws_end(b, i0 + 1);
        if i1 < b.len() && b[i1] == 125 {
            if ws_end(b, i1 + 1) == b.len() {
                manifest_of_fields(Seq::empty())
            } else {
                None
            }
        } else {
            match parse_fields(b, i1) {
                None => None,
                Some((fields, e)) => if ws_end(b, e) == b.len() {
                    manifest_of_fields(fields)
                } else {
                    None
                },
            }
        }
    } else {
        None
    }
}

/// Whether this byte may stand inside a quoted string.
fn is_text_byte(c: u8) -> (r: bool)
    ensures
        r == text_ok(c),
{
    c >= 32 && c != 34 && c != 92
}

/// The bytes of `b` from `from` to `to`.
fn sub_vec(b: &Vec<u8>, from: usize, to: usize) -> (r: Vec<u8>)
    requires
        from <= to <= b@.len(),
    ensures
        r@ == b@.subrange(from as int, to as int),
{
    let mut out: Vec<u8> = Vec::new();
    for i in from..to
        invariant
            from <= i <= to <= b@.len(),
            out@ == b@.subrange(from as int, i as int),
    {
        out.push(b[i]);
        proof {
            assert(b@.subrange(from as int, i as int).push(b@[i as int]) =~= b@.subrange(
                from as int,
                i as int + 1,
            ));
        }
    }
    out
}

/// The first position at or after `i` whose byte is not whitespace.
fn skip_ws(b: &Vec<u8>, i: usize) -> (r: usize)
    requires
        i <= b@.len(),
    ensures
        r == ws_end(b@, i as int),
        i <= r <= b@.len(),
{
    let mut j = i;
    loop
        invariant
            i <= j <= b@.len(),
            forall|k: int| i <= k < j ==> ws_byte(b@[k]),
        ensures
            i <= j <= b@.len(),
            forall|k: int| i <= k < j ==> ws_byte(b@[k]),
            j == b@.len() || !ws_byte(b@[j as int]),
        decreases b@.len() - j,
    {
        if j == b.len() {
            break ;
        }
        let c = b[j];
        if !(c == 32 || c == 9 || c == 10 || c == 13) {
            break ;
        }
        j += 1;
    }
    proof {
        lemma_ws_end_at(b@, i as int, j as int);
    }
    j
}

/// Reads a quoted string at position `i`.
fn p_string(b: &Vec<u8>, i: usize) -> (r: Option<(Vec<u8>, usize)>)
    ensures
        match r {
            Some((s, j)) => {
                &&& parse_string_at(b@, i as int) == Some((s@, j as int))
                &&& i < j <= b@.len()
                &&& str_ok(s@)
            },
            None => parse_string_at(b@, i as int) is None,
        },
{
    if i >= b.len() || b[i] != 34 {
        return None;
    }
    let mut j = i + 1;
    loop
        invariant
            i + 1 <= j <= b@.len(),
            forall|k: int| i + 1 <= k < j ==> text_ok(b@[k]),
        ensures
            i + 1 <= j <= b@.len(),
            forall|k: int| i + 1 <= k < j ==> text_ok(b@[k]),
            j == b@.len() || !text_ok(b@[j as int]),
        decreases b@.len() - j,
    {
        if j == b.len() {
            break ;
        }
        if !is_text_byte(b[j]) {
            break ;
        }
        j += 1;
    }
    proof {
        lemma_str_end_at(b@, i as int + 1, j as int);
    }
    if j < b.len() && b[j] == 34 {
        let s = sub_vec(b, i + 1, j);
        Some((s, j + 1))
    } else {
        None
    }
}

/// Every key and every constraint in the list may stand inside quotes.
pub open spec fn deps_strings_ok(ds: Seq<Dep>) -> bool {
    forall|q: int| #![trigger ds[q]] 0 <= q < ds.len() ==> str_ok(ds[q]@.0) && str_ok(ds[q]@.1)
}

/// Reads `KEY:CONSTRAINT` records until their closing brace.
fn p_pairs(b: &Vec<u8>, i: usize) -> (r: Option<(Vec<Dep>, usize)>)
    ensures
        r matches Some(p) ==> parse_pairs(b@, i as int) == Some((deps_view(p.0@), p.1 as int)),
        r matches Some(p) ==> i < p.1 <= b@.len(),
        r matches Some(p) ==> deps_strings_ok(p.0@),
        r is None ==> parse_pairs(b@, i as int) is None,
    decreases b@.len() - i,
{
    let key = match p_string(b, i) {
        None => {
            return None;
        },
        Some(kv) => kv,
    };
    let (k, i1) = key;
    let i2 = skip_ws(b, i1);
    if i2 >= b.len() || b[i2] != 58 {
        return None;
    }
    let sv = skip_ws(b, i2 + 1);
    let val = match p_string(b, sv) {
        None => {
            return None;
        },
        Some(vv) => vv,
    };
    let (v, i3) = val;
    let i4 = skip_ws(b, i3);
    if i4 < b.len() && b[i4] == 44 {
        let nxt = skip_ws(b, i4 + 1);
        match p_pairs(b, nxt) {
            None => None,
            Some((mut rest, i5)) => {
                let ghost rest0 = rest@;
                let d = Dep { key: k, constraint: v };
                rest.insert(0, d);
                proof {
                    assert(deps_view(rest@) =~= seq![(d.key@, d.constraint@)] + deps_view(rest0));
                    assert(parse_pairs(b@, i as int) =~~= Some((deps_view(rest@), i5 as int)));
                    assert forall|q: int| 0 <= q < rest@.len() implies str_ok(
                        #[trigger] rest@[q]@.0,
                    ) && str_ok(rest@[q]@.1) by {
                        if q > 0 {
                            assert(str_ok(rest0[q - 1]@.0) && str_ok(rest0[q - 1]@.1));
                            assert(rest@[q] == rest0[q - 1]);
                        } else {
                            assert(rest@[0] == d);
                        }
                    }
                    assert(deps_strings_ok(rest@));
                }
                Some((rest, i5))
            },
        }
    } else if i4 < b.len() && b[i4] == 125 {
        let d = Dep { key: k, constraint: v };
        let mut ds: Vec<Dep> = Vec::new();
        ds.push(d);
        proof {
            assert(deps_view(ds@) =~= seq![(d.key@, d.constraint@)]);
            assert(parse_pairs(b@, i as int) =~~= Some((deps_view(ds@), i4 + 1 as int)));
            assert forall|q: int| 0 <= q < ds@.len() implies str_ok(#[trigger] ds@[q]@.0)
                && str_ok(ds@[q]@.1) by {
                assert(ds@[q] == d);
            }
            assert(deps_strings_ok(ds@));
        }
        Some((ds, i4 + 1))
    } else {
        None
    }
}

/// Reads the dependency map after its opening brace.
fn p_deps(b: &Vec<u8>, i: usize) -> (r: Option<(Vec<Dep>, usize)>)
    requires
        i <= b@.len(),
    ensures
        r matches Some(p) ==> parse_deps_at(b@, i as int) == Some((deps_view(p.0@), p.1 as int)),
        r matches Some(p) ==> i < p.1 <= b@.len(),
        r matches Some(p) ==> deps_strings_ok(p.0@),
        r is None ==> parse_deps_at(b@, i as int) is None,
{
    let j = skip_ws(b, i);
    if j < b.len() && b[j] == 125 {
        let ds: Vec<Dep> = Vec::new();
        proof {
            assert(deps_view(ds@) =~= Seq::<(Seq<u8>, Seq<u8>)>::empty());
        }
        Some((ds, j + 1))
    } else {
        p_pairs(b, j)
    }
}

/// Every key and constraint of the table may stand inside quotes.
pub open spec fn pairs_strings_ok(ps: Seq<(Seq<u8>, Seq<u8>)>) -> bool {
    forall|q: int| #![trigger ps[q]] 0 <= q < ps.len() ==> str_ok(ps[q].0) && str_ok(ps[q].1)
}

/// Every string in the field value may stand inside quotes.
pub open spec fn value_strings_ok(v: FieldValue) -> bool {
    match v {
        FieldValue::Text(t) => str_ok(t),
        FieldValue::Table(ps) => pairs_strings_ok(ps),
    }
}

/// Every string in every field value may stand inside quotes.
pub open spec fn fields_strings_ok(fs: Seq<(Seq<u8>, FieldValue)>) -> bool {
    forall|q: int| #![trigger fs[q]] 0 <= q < fs.len() ==> value_strings_ok(fs[q].1)
}

/// A found field's value keeps the string property of the list.
proof fn lemma_lookup_strings_ok(fs: Seq<(Seq<u8>, FieldValue)>, key: Seq<u8>)
    requires
        fields_strings_ok(fs),
    ensures
        field_lookup(fs, key) matches Some(v) ==> value_strings_ok(v),
    decreases fs.len(),
{
    if fs.len() > 0 {
        if fs[0].0 == key {
            assert(value_strings_ok(fs[0].1));
        } else {
            assert forall|q: int| #![trigger fs.drop_first()[q]]
                0 <= q < fs.drop_first().len() implies value_strings_ok(
                fs.drop_first()[q].1,
            ) by {
                assert(fs.drop_first()[q] == fs[q + 1]);
                assert(value_strings_ok(fs[q + 1].1));
            }
            lemma_lookup_strings_ok(fs.drop_first(), key);
        }
    }
}

/// One field value as read.
#[verifier::ext_equal]
pub enum FieldVal {
    Text(Vec<u8>),
    Table(Vec<Dep>),
}

impl View for FieldVal {
    type V = FieldValue;

    open spec fn view(&self) -> FieldValue {
        match self {
            FieldVal::Text(t) => FieldValue::Text(t@),
            FieldVal::Table(ds) => FieldValue::Table(deps_view(ds@)),
        }
    }
}

/// The fields as the specification sees them.
pub open spec fn fields_view(fs: Seq<(Vec<u8>, FieldVal)>) -> Seq<(Seq<u8>, FieldValue)> {
    fs.map_values(|f: (Vec<u8>, FieldVal)| (f.0@, f.1@))
}

/// Reads a field value: a quoted string, or a braced table.
fn p_value(b: &Vec<u8>, i: usize) -> (r: Option<(FieldVal, usize)>)
    ensures
        r matches Some(p) ==> parse_value_at(b@, i as int) == Some((p.0@, p.1 as int)),
        r matches Some(p) ==> i < p.1 <= b@.len(),
        r matches Some(p) ==> value_strings_ok(p.0@),
        r is None ==> parse_value_at(b@, i as int) is None,
{
    if i < b.len() && b[i] == 34 {
        match p_string(b, i) {
            None => None,
            Some((t, j)) => Some((FieldVal::Text(t), j)),
        }
    } else if i < b.len() && b[i] == 123 {
        match p_deps(b, i + 1) {
            None => None,
            Some((ds, j)) => {
                proof {
                    let ghost dsv = deps_view(ds@);
                    assert forall|q: int| #![trigger dsv[q]] 0 <= q < dsv.len() implies str_ok(
                        dsv[q].0,
                    ) && str_ok(dsv[q].1) by {
                        assert(dsv[q] == ds@[q]@);
                        assert(str_ok(ds@[q]@.0) && str_ok(ds@[q]@.1));
                    }
                    assert(pairs_strings_ok(dsv));
                }
                Some((FieldVal::Table(ds), j))
            },
        }
    } else {
        None
    }
}

/// Reads `KEY:VALUE` fields until the record's closing brace.
fn p_fields(b: &Vec<u8>, i: usize) -> (r: Option<(Vec<(Vec<u8>, FieldVal)>, usize)>)
    ensures
        r matches Some(p) ==> parse_fields(b@, i as int) == Some((fields_view(p.0@), p.1 as int)),
        r matches Some(p) ==> i < p.1 <= b@.len(),
        r matches Some(p) ==> fields_strings_ok(fields_view(p.0@)),
        r is None ==> parse_fields(b@, i as int) is None,
    decreases b@.len() - i,
{
    let key = match p_string(b, i) {
        None => {
            return None;
        },
        Some(kv) => kv,
    };
    let (k, i1) = key;
    let i2 = skip_ws(b, i1);
    if i2 >= b.len() || b[i2] != 58 {
        return None;
    }
    let sv = skip_ws(b, i2 + 1);
    let val = match p_value(b, sv) {
        None => {
            return None;
        },
        Some(vv) => vv,
    };
    let (v, i3) = val;
    let i4 = skip_ws(b, i3);
    if i4 < b.len() && b[i4] == 44 {
        let nxt = skip_ws(b, i4 + 1);
        match p_fields(b, nxt) {
            None => None,
            Some((mut rest, i5)) => {
                let ghost rest0 = rest@;
                let ghost kv0: (Seq<u8>, FieldValue) = (k@, v@);
                rest.insert(0, (k, v));
                proof {
                    assert(rest@[0].0@ == kv0.0 && rest@[0].1@ == kv0.1);
                    assert(fields_view(rest@) =~~= seq![kv0] + fields_view(rest0));
                    assert(parse_fields(b@, i as int) =~~= Some(
                        (fields_view(rest@), i5 as int),
                    ));
                    assert forall|q: int| #![trigger fields_view(rest@)[q]]
                        0 <= q < fields_view(rest@).len() implies value_strings_ok(
                        fields_view(rest@)[q].1,
                    ) by {
                        if q > 0 {
                            assert(fields_view(rest0)[q - 1] == (rest0[q - 1].0@, rest0[q - 1].1@));
                            assert(value_strings_ok(fields_view(rest0)[q - 1].1));
                            assert(rest@[q] == rest0[q - 1]);
                            assert(fields_view(rest@)[q] == (rest@[q].0@, rest@[q].1@));
                        } else {
                            assert(fields_view(rest@)[0] == kv0);
                        }
                    }
                    assert(fields_strings_ok(fields_view(rest@)));
                }
                Some((rest, i5))
            },
        }
    } else if i4 < b.len() && b[i4] == 125 {
        let ghost kv0: (Seq<u8>, FieldValue) = (k@, v@);
        let mut fs: Vec<(Vec<u8>, FieldVal)> = Vec::new();
        fs.push((k, v));
        proof {
            assert(fields_view(fs@) =~~= seq![kv0]);
            assert(parse_fields(b@, i as int) =~~= Some((fields_view(fs@), i4 + 1 as int)));
            assert forall|q: int| #![trigger fields_view(fs@)[q]]
                0 <= q < fields_view(fs@).len() implies value_strings_ok(
                fields_view(fs@)[q].1,
            ) by {
                assert(fields_view(fs@)[0] == kv0);
            }
            assert(fields_strings_ok(fields_view(fs@)));
        }
        Some((fs, i4 + 1))
    } else {
        None
    }
}

/// The value of the first field under this key.
fn find_field<'a>(fields: &'a Vec<(Vec<u8>, FieldVal)>, key: &Vec<u8>) -> (r: Option<
    &'a FieldVal,
>)
    ensures
        r matches Some(v) ==> field_lookup(fields_view(fields@), key@) == Some(v@),
        r is None ==> field_lookup(fields_view(fields@), key@) is None,
{
    let n = fields.len();
    proof {
        assert(fields_view(fields@).skip(0) =~= fields_view(fields@));
    }
    for i in 0..n
        invariant
            n == fields@.len(),
            field_lookup(fields_view(fields@), key@) == field_lookup(
                fields_view(fields@).skip(i as int),
                key@,
            ),
    {
        proof {
            let ghost fv = fields_view(fields@);
            assert(fv.skip(i as int)[0] == fv[i as int]);
            assert(fv.skip(i as int).drop_first() =~= fv.skip(i as int + 1));
            assert(fv[i as int] == (fields@[i as int].0@, fields@[i as int].1@));
        }
        if vec_u8_eq(&fields[i].0, key) {
            return Some(&fields[i].1);
        }
    }
    proof {
        assert(fields_view(fields@).skip(n as int) =~= Seq::<(Seq<u8>, FieldValue)>::empty());
    }
    None
}

/// How many fields carry this key.
fn count_field(fields: &Vec<(Vec<u8>, FieldVal)>, key: &Vec<u8>) -> (r: usize)
    ensures
        r == field_count(fields_view(fields@), key@),
{
    let n = fields.len();
    let mut cnt: usize = 0;
    proof {
        assert(fields_view(fields@).skip(0) =~= fields_view(fields@));
    }
    for i in 0..n
        invariant
            n == fields@.len(),
            cnt <= i,
            cnt + field_count(fields_view(fields@).skip(i as int), key@) == field_count(
                fields_view(fields@),
                key@,
            ),
    {
        proof {
            let ghost fv = fields_view(fields@);
            assert(fv.skip(i as int)[0] == fv[i as int]);
            assert(fv.skip(i as int).drop_first() =~= fv.skip(i as int + 1));
            assert(fv[i as int] == (fields@[i as int].0@, fields@[i as int].1@));
        }
        if vec_u8_eq(&fields[i].0, key) {
            cnt += 1;
        }
    }
    proof {
        assert(fields_view(fields@).skip(n as int) =~= Seq::<(Seq<u8>, FieldValue)>::empty());
    }
    cnt
}

/// A copy of the dependency records.
fn clone_deps(ds: &Vec<Dep>) -> (r: Vec<Dep>)
    ensures
        deps_view(r@) == deps_view(ds@),
{
    let mut out: Vec<Dep> = Vec::new();
    let n = ds.len();
    for i in 0..n
        invariant
            n == ds@.len(),
            out@.len() == i,
            deps_view(out@) == deps_view(ds@).take(i as int),
    {
        let d = Dep {
            key: crate::archive::copy_bytes(&ds[i].key),
            constraint: crate::archive::copy_bytes(&ds[i].constraint),
        };
        let ghost prev = out@;
        out.push(d);
        proof {
            assert(out@ == prev.push(d));
            assert forall|t: int| 0 <= t < out@.len() implies deps_view(out@)[t] == deps_view(
                ds@,
            ).take(i as int + 1)[t] by {
                assert(deps_view(out@)[t] == out@[t]@);
                assert(deps_view(ds@).take(i as int + 1)[t] == deps_view(ds@)[t]);
                assert(deps_view(ds@)[t] == ds@[t]@);
                if t < prev.len() {
                    assert(out@[t] == prev[t]);
                    assert(deps_view(prev)[t] == prev[t]@);
                    assert(deps_view(prev)[t] == deps_view(ds@).take(i as int)[t]);
                    assert(deps_view(ds@).take(i as int)[t] == deps_view(ds@)[t]);
                } else {
                    assert(out@[t] == d);
                    assert(d@ == ds@[i as int]@);
                }
            }
            assert(deps_view(out@) =~= deps_view(ds@).take(i as int + 1));
        }
    }
    proof {
        assert(deps_view(ds@).take(n as int) =~= deps_view(ds@));
    }
    out
}

/// True exactly when no two records share a key.
fn check_keys_unique(deps: &Vec<Dep>) -> (r: bool)
    ensures
        r == keys_unique(deps_view(deps@)),
{
    let n = deps.len();
    for i in 0..n
        invariant
            n == deps@.len(),
            forall|p: int, q: int|
                0 <= p < q < deps@.len() && p < i ==> deps@[p].key@ != deps@[q].key@,
    {
        for j in (i + 1)..n
            invariant
                n == deps@.len(),
                i < n,
                forall|p: int, q: int|
                    0 <= p < q < deps@.len() && p < i ==> deps@[p].key@ != deps@[q].key@,
                forall|q: int| i < q < j ==> deps@[i as int].key@ != deps@[q].key@,
        {
            if vec_u8_eq(&deps[i].key, &deps[j].key) {
                proof {
                    assert(deps_view(deps@)[i as int].0 == deps@[i as int].key@);
                    assert(deps_view(deps@)[j as int].0 == deps@[j as int].key@);
                }
                return false;
            }
        }
    }
    true
}

impl Manifest {
    /// Parses manifest text: one JSON-shaped record holding a quoted
    /// `name`, a quoted `version` and an optional `dependencies` table,
    /// in any order, with whitespace tolerated and any unknown field
    /// ignored. Returns the manifest exactly when the text matches that
    /// grammar and the manifest it describes is well-formed; fails with
    /// `MalformedManifest` otherwise.
    pub fn parse(b: &Vec<u8>) -> (r: Result<Manifest, PkgError>)
        ensures
            r matches Ok(m) ==> parse_manifest_text(b@) == Some(m@) && manifest_wf(m@),
            r matches Err(e) ==> e == PkgError::MalformedManifest,
            r matches Err(_) ==> (match parse_manifest_text(b@) {
                Some(mm) => !manifest_wf(mm),
                None => true,
            }),
    {
        let i0 = skip_ws(b, 0);
        if i0 >= b.len() || b[i0] != 123 {
            return Err(PkgError::MalformedManifest);
        }
        let i1 = skip_ws(b, i0 + 1);
        if i1 < b.len() && b[i1] == 125 {
            proof {
                assert(field_lookup(Seq::<(Seq<u8>, FieldValue)>::empty(), name_key()) is None);
            }
            return Err(PkgError::MalformedManifest);
        }
        let parsed = match p_fields(b, i1) {
            None => {
                return Err(PkgError::MalformedManifest);
            },
            Some(x) => x,
        };
        let (fields, e) = parsed;
        let tail = skip_ws(b, e);
        if tail != b.len() {
            return Err(PkgError::MalformedManifest);
        }
        let ghost fv = fields_view(fields@);
        proof {
            assert(parse_manifest_text(b@) == manifest_of_fields(fv));
        }
        let mut nk: Vec<u8> = Vec::new();
        nk.push(110);
        nk.push(97);
        nk.push(109);
        nk.push(101);
        proof {
            assert(nk@ =~= name_key());
        }
        let mut vk: Vec<u8> = Vec::new();
        vk.push(118);
        vk.push(101);
        vk.push(114);
        vk.push(115);
        vk.push(105);
        vk.push(111);
        vk.push(110);
        proof {
            assert(vk@ =~= version_key());
        }
        let mut dk: Vec<u8> = Vec::new();
        dk.push(100);
        dk.push(101);
        dk.push(112);
        dk.push(101);
        dk.push(110);
        dk.push(100);
        dk.push(101);
        dk.push(110);
        dk.push(99);
        dk.push(105);
        dk.push(101);
        dk.push(115);
        proof {
            assert(dk@ =~= dependencies_key());
        }
        if count_field(&fields, &nk) != 1 || count_field(&fields, &vk) != 1 {
            proof {
                lemma_field_count_lookup(fv, name_key());
                lemma_field_count_lookup(fv, version_key());
                assert(manifest_of_fields(fv) is None);
            }
            return Err(PkgError::MalformedManifest);
        }
        let name_val = match find_field(&fields, &nk) {
            None => {
                proof {
                    lemma_field_count_lookup(fv, name_key());
                }
                return Err(PkgError::MalformedManifest);
            },
            Some(v) => v,
        };
        let name = match name_val {
            FieldVal::Text(t) => crate::archive::copy_bytes(t),
            FieldVal::Table(_) => {
                proof {
                    assert(manifest_of_fields(fv) is None);
                }
                return Err(PkgError::MalformedManifest);
            },
        };
        let version_val = match find_field(&fields, &vk) {
            None => {
                proof {
                    lemma_field_count_lookup(fv, version_key());
                }
                return Err(PkgError::MalformedManifest);
            },
            Some(v) => v,
        };
        let version = match version_val {
            FieldVal::Text(t) => crate::archive::copy_bytes(t),
            FieldVal::Table(_) => {
                proof {
                    assert(manifest_of_fields(fv) is None);
                }
                return Err(PkgError::MalformedManifest);
            },
        };
        let deps: Vec<Dep> = match find_field(&fields, &dk) {
            None => Vec::new(),
            Some(dv) => match dv {
                FieldVal::Table(ds) => {
                    if count_field(&fields, &dk) != 1 {
                        proof {
                            assert(manifest_of_fields(fv) is None);
                        }
                        return Err(PkgError::MalformedManifest);
                    }
                    clone_deps(ds)
                },
                FieldVal::Text(_) => {
                    proof {
                        assert(manifest_of_fields(fv) is None);
                    }
                    return Err(PkgError::MalformedManifest);
                },
            },
        };
        let m = Manifest { name, version, deps };
        proof {
            if field_lookup(fv, dependencies_key()) is None {
                assert(deps_view(m.deps@) =~= Seq::<(Seq<u8>, Seq<u8>)>::empty());
            }
            assert(parse_manifest_text(b@) =~~= Some(m@));
            lemma_lookup_strings_ok(fv, name_key());
            lemma_lookup_strings_ok(fv, version_key());
            lemma_lookup_strings_ok(fv, dependencies_key());
            assert(str_ok(m@.name) && str_ok(m@.version));
            assert(pairs_strings_ok(deps_view(m.deps@)));
        }
        if m.name.len() == 0 {
            proof {
                assert(!manifest_wf(m@));
            }
            return Err(PkgError::MalformedManifest);
        }
        let dn = m.deps.len();
        for q in 0..dn
            invariant
                dn == m.deps@.len(),
                parse_manifest_text(b@) == Some(m@),
                m@.name.len() > 0,
                str_ok(m@.name) && str_ok(m@.version),
                pairs_strings_ok(deps_view(m.deps@)),
                forall|p: int| 0 <= p < q ==> m.deps@[p].key@.len() > 0,
        {
            if m.deps[q].key.len() == 0 {
                proof {
                    assert(m@.deps[q as int].0 == m.deps@[q as int].key@);
                    assert(!manifest_wf(m@));
                }
                return Err(PkgError::MalformedManifest);
            }
        }
        if !check_keys_unique(&m.deps) {
            return Err(PkgError::MalformedManifest);
        }
        proof {
            assert forall|ii: int| 0 <= ii < m@.deps.len() implies #[trigger] m@.deps[ii].0.len()
                > 0 && str_ok(m@.deps[ii].0) && str_ok(m@.deps[ii].1) by {
                assert(m@.deps[ii] == deps_view(m.deps@)[ii]);
                assert(str_ok(deps_view(m.deps@)[ii].0) && str_ok(deps_view(m.deps@)[ii].1));
                assert(m@.deps[ii].0 == m.deps@[ii].key@);
                assert(m.deps@[ii].key@.len() > 0);
            }
            assert(manifest_wf(m@));
        }
        Ok(m)
    }
}

/// Reading a quoted string at the position where one was written
/// recovers it exactly.
proof fn lemma_parse_string_emit(b: Seq<u8>, i: int, s: Seq<u8>)
    requires
        0 <= i,
        i + s.len() + 2 <= b.len(),
        str_ok(s),
        b.subrange(i, i + s.len() + 2) == emit_string(s),
    ensures
        parse_string_at(b, i) == Some((s, i + s.len() + 2)),
{
    let w = b.subrange(i, i + s.len() + 2);
    assert(b[i] == w[0]);
    assert(w[0] == 34);
    assert forall|k: int| i + 1 <= k < i + 1 + s.len() implies text_ok(b[k]) by {
        assert(b[k] == w[k - i]);
        assert(w[k - i] == s[k - i - 1]);
    }
    assert(b[i + 1 + s.len()] == w[s.len() as int + 1]);
    assert(w[s.len() as int + 1] == 34);
    assert(!text_ok(34));
    lemma_str_end_at(b, i + 1, i + 1 + s.len());
    assert(b.subrange(i + 1, i + 1 + s.len()) =~= s) by {
        assert forall|t: int| 0 <= t < s.len() implies b[i + 1 + t] == s[t] by {
            assert(b[i + 1 + t] == w[1 + t]);
            assert(w[1 + t] == s[t]);
        }
    }
}

/// Reading the comma-separated records at the position where they were
/// written recovers them exactly, consuming the closing brace.
proof fn lemma_parse_pairs_emit(b: Seq<u8>, i: int, deps: Seq<(Seq<u8>, Seq<u8>)>)
    requires
        0 <= i,
        deps.len() > 0,
        forall|q: int| 0 <= q < deps.len() ==> str_ok(#[trigger] deps[q].0) && str_ok(deps[q].1),
        i + emit_deps(deps).len() + 1 <= b.len(),
        b.subrange(i, i + emit_deps(deps).len() + 1) == emit_deps(deps) + seq![125u8],
    ensures
        parse_pairs(b, i) == Some((deps, i + emit_deps(deps).len() + 1)),
    decreases deps.len(),
{
    let nn = emit_deps(deps).len() as int;
    let w = b.subrange(i, i + nn + 1);
    let k = deps[0].0;
    let v = deps[0].1;
    let ep = emit_pair(deps[0]);
    assert(str_ok(k) && str_ok(v));
    assert(ep.len() == k.len() + v.len() + 5);
    assert(ep == emit_string(k) + seq![58u8] + emit_string(v));
    if deps.len() == 1 {
        assert(emit_deps(deps) == ep);
        assert(b.subrange(i, i + k.len() as int + 2) =~= emit_string(k)) by {
            assert forall|t: int| 0 <= t < k.len() + 2 implies b[i + t] == emit_string(k)[t] by {
                assert(b[i + t] == w[t]);
            }
        }
        lemma_parse_string_emit(b, i, k);
        let i1 = i + k.len() as int + 2;
        assert(b[i1] == w[k.len() as int + 2]);
        assert(w[k.len() as int + 2] == 58);
        assert(!ws_byte(58));
        assert(ws_end(b, i1) == i1);
        assert(b[i1 + 1] == w[k.len() as int + 3]);
        assert(w[k.len() as int + 3] == 34);
        assert(ws_end(b, i1 + 1) == i1 + 1);
        assert(b.subrange(i1 + 1, i1 + 1 + v.len() as int + 2) =~= emit_string(v)) by {
            assert forall|t: int| 0 <= t < v.len() + 2 implies b[i1 + 1 + t] == emit_string(v)[t] by {
                assert(b[i1 + 1 + t] == w[k.len() as int + 3 + t]);
            }
        }
        lemma_parse_string_emit(b, i1 + 1, v);
        let i2 = i1 + 1 + v.len() as int + 2;
        assert(i2 == i + nn);
        assert(b[i2] == w[nn]);
        assert(w[nn] == 125);
        assert(ws_end(b, i2) == i2);
        assert((k, v) == deps[0]);
        assert(seq![(k, v)] =~= deps);
        assert(parse_pairs(b, i) == Some((seq![(k, v)], i2 + 1)));
    } else {
        let rest = deps.drop_first();
        assert(emit_deps(deps) == ep + seq![44u8] + emit_deps(rest));
        assert(b.subrange(i, i + k.len() as int + 2) =~= emit_string(k)) by {
            assert forall|t: int| 0 <= t < k.len() + 2 implies b[i + t] == emit_string(k)[t] by {
                assert(b[i + t] == w[t]);
                assert(w[t] == ep[t]);
            }
        }
        lemma_parse_string_emit(b, i, k);
        let i1 = i + k.len() as int + 2;
        assert(b[i1] == w[k.len() as int + 2]);
        assert(w[k.len() as int + 2] == ep[k.len() as int + 2]);
        assert(ep[k.len() as int + 2] == 58);
        assert(ws_end(b, i1) == i1);
        assert(b[i1 + 1] == w[k.len() as int + 3]);
        assert(w[k.len() as int + 3] == ep[k.len() as int + 3]);
        assert(ep[k.len() as int + 3] == 34);
        assert(ws_end(b, i1 + 1) == i1 + 1);
        assert(b.subrange(i1 + 1, i1 + 1 + v.len() as int + 2) =~= emit_string(v)) by {
            assert forall|t: int| 0 <= t < v.len() + 2 implies b[i1 + 1 + t] == emit_string(v)[t] by {
                assert(b[i1 + 1 + t] == w[k.len() as int + 3 + t]);
                assert(w[k.len() as int + 3 + t] == ep[k.len() as int + 3 + t]);
            }
        }
        lemma_parse_string_emit(b, i1 + 1, v);
        let i2 = i1 + 1 + v.len() as int + 2;
        assert(i2 == i + ep.len());
        assert(b[i2] == w[ep.len() as int]);
        assert(w[ep.len() as int] == 44);
        assert(ws_end(b, i2) == i2);
        let rn = emit_deps(rest).len() as int;
        assert(nn == ep.len() + 1 + rn);
        assert(b[i2 + 1] == w[ep.len() as int + 1]);
        assert(w[ep.len() as int + 1] == emit_deps(rest)[0]);
        assert(emit_deps(rest)[0] == emit_pair(rest[0])[0]);
        assert(emit_pair(rest[0])[0] == 34);
        assert(ws_end(b, i2 + 1) == i2 + 1);
        assert(b.subrange(i2 + 1, i2 + 1 + rn + 1) =~= emit_deps(rest) + seq![125u8]) by {
            assert forall|t: int| 0 <= t < rn + 1 implies b[i2 + 1 + t] == (emit_deps(rest)
                + seq![125u8])[t] by {
                assert(b[i2 + 1 + t] == w[ep.len() as int + 1 + t]);
            }
        }
        assert forall|q: int| 0 <= q < rest.len() implies str_ok(#[trigger] rest[q].0) && str_ok(
            rest[q].1,
        ) by {
            assert(rest[q] == deps[q + 1]);
            assert(str_ok(deps[q + 1].0) && str_ok(deps[q + 1].1));
        }
        lemma_parse_pairs_emit(b, i2 + 1, rest);
        assert((k, v) == deps[0]);
        assert(seq![(k, v)] + rest =~= deps);
        assert(parse_pairs(b, i) == Some((seq![(k, v)] + rest, i2 + 1 + rn + 1)));
    }
}

/// The position after the name field of the written text.
pub open spec fn rt_after_name(m: ManifestModel) -> int {
    10 + m.name.len() as int
}

/// The position after the version field of the written text.
pub open spec fn rt_after_version(m: ManifestModel) -> int {
    rt_after_name(m) + 13 + m.version.len() as int
}

/// The position of the dependency table's closing brace.
pub open spec fn rt_deps_end(m: ManifestModel) -> int {
    rt_after_version(m) + 17 + emit_deps(m.deps).len() as int
}

/// In the written text, the dependency field's table reads back as the
/// dependency list.
proof fn lemma_rt_table(m: ManifestModel)
    requires
        manifest_wf(m),
    ensures
        parse_deps_at(emit_manifest(m), rt_after_version(m) + 17) == Some(
            (m.deps, rt_deps_end(m) + 1),
        ),
{
    let b = emit_manifest(m);
    let ed = emit_deps(m.deps);
    let dstart = rt_after_version(m) + 17;
    let dend = rt_deps_end(m);
    assert(b.len() == dend + 2);
    if m.deps.len() == 0 {
        assert(ed.len() == 0);
        assert(b[dstart] == 125);
        assert(ws_end(b, dstart) == dstart);
        assert(m.deps =~= Seq::<(Seq<u8>, Seq<u8>)>::empty());
    } else {
        assert(ed == emit_pair(m.deps[0]) || ed == emit_pair(m.deps[0]) + seq![44u8] + emit_deps(
            m.deps.drop_first(),
        ));
        assert(b[dstart] == ed[0]);
        assert(ed[0] == emit_pair(m.deps[0])[0]);
        assert(emit_pair(m.deps[0])[0] == 34);
        assert(ws_end(b, dstart) == dstart);
        assert(b.subrange(dstart, dstart + ed.len() as int + 1) =~= ed + seq![125u8]);
        assert forall|q: int| 0 <= q < m.deps.len() implies str_ok(#[trigger] m.deps[q].0)
            && str_ok(m.deps[q].1) by {
            assert(m.deps[q].0.len() > 0 && str_ok(m.deps[q].0) && str_ok(m.deps[q].1));
        }
        lemma_parse_pairs_emit(b, dstart, m.deps);
    }
}

/// In the written text, the fields from the dependency field on read
/// back as that one field.
proof fn lemma_rt_fields3(m: ManifestModel)
    requires
        manifest_wf(m),
    ensures
        parse_fields(emit_manifest(m), rt_after_version(m) + 1) == Some(
            (seq![(dependencies_key(), FieldValue::Table(m.deps))], rt_deps_end(m) + 2),
        ),
{
    let b = emit_manifest(m);
    let vv = rt_after_version(m);
    let dend = rt_deps_end(m);
    assert(str_ok(dependencies_key()));
    assert(b.subrange(vv + 1, vv + 15) =~= emit_string(dependencies_key()));
    lemma_parse_string_emit(b, vv + 1, dependencies_key());
    assert(b[vv + 15] == 58);
    assert(ws_end(b, vv + 15) == vv + 15);
    assert(b[vv + 16] == 123);
    assert(ws_end(b, vv + 16) == vv + 16);
    lemma_rt_table(m);
    assert(parse_value_at(b, vv + 16) == Some((FieldValue::Table(m.deps), dend + 1)));
    assert(b[dend + 1] == 125);
    assert(ws_end(b, dend + 1) == dend + 1);
}

/// In the written text, the fields from the version field on read back
/// as those two fields.
proof fn lemma_rt_fields2(m: ManifestModel)
    requires
        manifest_wf(m),
    ensures
        parse_fields(emit_manifest(m), rt_after_name(m) + 1) == Some(
            (
                seq![(version_key(), FieldValue::Text(m.version))] + seq![
                    (dependencies_key(), FieldValue::Table(m.deps)),
                ],
                rt_deps_end(m) + 2,
            ),
        ),
{
    let b = emit_manifest(m);
    let ev = emit_string(m.version);
    let vl = m.version.len() as int;
    let vn = rt_after_name(m);
    let vv = rt_after_version(m);
    assert(str_ok(version_key()));
    assert(b.subrange(vn + 1, vn + 10) =~= emit_string(version_key()));
    lemma_parse_string_emit(b, vn + 1, version_key());
    assert(b[vn + 10] == 58);
    assert(ws_end(b, vn + 10) == vn + 10);
    assert(b[vn + 11] == ev[0]);
    assert(ev[0] == 34);
    assert(ws_end(b, vn + 11) == vn + 11);
    assert(b.subrange(vn + 11, vn + 11 + vl + 2) =~= ev);
    lemma_parse_string_emit(b, vn + 11, m.version);
    assert(parse_value_at(b, vn + 11) == Some((FieldValue::Text(m.version), vv)));
    assert(b[vv] == 44);
    assert(ws_end(b, vv) == vv);
    assert(b[vv + 1] == 34);
    assert(ws_end(b, vv + 1) == vv + 1);
    lemma_rt_fields3(m);
}

/// In the written text, the whole field list reads back as the three
/// fields, in order.
proof fn lemma_rt_fields1(m: ManifestModel)
    requires
        manifest_wf(m),
    ensures
        parse_fields(emit_manifest(m), 1) == Some(
            (
                seq![(name_key(), FieldValue::Text(m.name))] + (seq![
                    (version_key(), FieldValue::Text(m.version)),
                ] + seq![(dependencies_key(), FieldValue::Table(m.deps))]),
                rt_deps_end(m) + 2,
            ),
        ),
{
    let b = emit_manifest(m);
    let en = emit_string(m.name);
    let nl = m.name.len() as int;
    let vn = rt_after_name(m);
    assert(str_ok(name_key()));
    assert(b.subrange(1, 7) =~= emit_string(name_key()));
    lemma_parse_string_emit(b, 1, name_key());
    assert(b[7] == 58);
    assert(ws_end(b, 7) == 7);
    assert(b[8] == en[0]);
    assert(en[0] == 34);
    assert(ws_end(b, 8) == 8);
    assert(b.subrange(8, 8 + nl + 2) =~= en);
    lemma_parse_string_emit(b, 8, m.name);
    assert(parse_value_at(b, 8) == Some((FieldValue::Text(m.name), vn)));
    assert(b[vn] == 44);
    assert(ws_end(b, vn) == vn);
    assert(b[vn + 1] == 34);
    assert(ws_end(b, vn + 1) == vn + 1);
    lemma_rt_fields2(m);
}

/// The three fields of the written text describe the manifest itself.
proof fn lemma_rt_interpret(m: ManifestModel)
    ensures
        manifest_of_fields(
            seq![(name_key(), FieldValue::Text(m.name))] + (seq![
                (version_key(), FieldValue::Text(m.version)),
            ] + seq![(dependencies_key(), FieldValue::Table(m.deps))]),
        ) == Some(m),
{
    let f3 = seq![(dependencies_key(), FieldValue::Table(m.deps))];
    let f2 = seq![(version_key(), FieldValue::Text(m.version))] + f3;
    let f1 = seq![(name_key(), FieldValue::Text(m.name))] + f2;
    assert(name_key().len() == 4 && version_key().len() == 7 && dependencies_key().len() == 12);
    assert(dependencies_key() != name_key());
    assert(dependencies_key() != version_key());
    assert(version_key() != name_key());
    assert(f1[0].0 == name_key());
    assert(f1.drop_first() =~= f2);
    assert(f2[0].0 == version_key());
    assert(f2.drop_first() =~= f3);
    assert(f3[0].0 == dependencies_key());
    assert(f3.drop_first() =~= Seq::<(Seq<u8>, FieldValue)>::empty());
    assert(field_lookup(f1, name_key()) == Some(FieldValue::Text(m.name)));
    assert(field_lookup(f2, version_key()) == Some(FieldValue::Text(m.version)));
    assert(field_lookup(f1, version_key()) == Some(FieldValue::Text(m.version)));
    assert(field_lookup(f3, dependencies_key()) == Some(FieldValue::Table(m.deps)));
    assert(field_lookup(f2, dependencies_key()) == Some(FieldValue::Table(m.deps)));
    assert(field_lookup(f1, dependencies_key()) == Some(FieldValue::Table(m.deps)));
    assert(field_count(f3.drop_first(), name_key()) == 0);
    assert(field_count(f3.drop_first(), version_key()) == 0);
    assert(field_count(f3.drop_first(), dependencies_key()) == 0);
    assert(field_count(f3, name_key()) == 0);
    assert(field_count(f2, name_key()) == 0);
    assert(field_count(f1, name_key()) == 1);
    assert(field_count(f3, version_key()) == 0);
    assert(field_count(f2, version_key()) == 1);
    assert(field_count(f1, version_key()) == 1);
    assert(field_count(f3, dependencies_key()) == 1);
    assert(field_count(f2, dependencies_key()) == 1);
    assert(field_count(f1, dependencies_key()) == 1);
    assert(manifest_of_fields(f1) == Some(
        ManifestModel { name: m.name, version: m.version, deps: m.deps },
    ));
    assert(ManifestModel { name: m.name, version: m.version, deps: m.deps } == m);
}

/// Parsing the text written for a well-formed manifest gives that
/// manifest back: the writer and the parser invert each other.
pub proof fn lemma_manifest_text_round_trip(m: ManifestModel)
    requires
        manifest_wf(m),
    ensures
        parse_manifest_text(emit_manifest(m)) == Some(m),
{
    let b = emit_manifest(m);
    let dend = rt_deps_end(m);
    assert(b.len() == dend + 2);
    assert(b[0] == 123);
    assert(ws_end(b, 0) == 0);
    assert(b[1] == 34);
    assert(ws_end(b, 1) == 1);
    lemma_rt_fields1(m);
    assert(ws_end(b, dend + 2) == b.len() as int);
    lemma_rt_interpret(m);
}

impl Manifest {
    /// Serializes the manifest to its textual form.
    pub fn to_text(&self) -> (r: Vec<u8>)
        ensures
            r@ == emit_manifest(self@),
    {
        let mut out: Vec<u8> = Vec::new();
        out.push(123);
        out.push(34);
        out.push(110);
        out.push(97);
        out.push(109);
        out.push(101);
        out.push(34);
        out.push(58);
        proof {
            assert(out@ =~= lit_open());
        }
        push_quoted(&mut out, &self.name);
        out.push(44);
        out.push(34);
        out.push(118);
        out.push(101);
        out.push(114);
        out.push(115);
        out.push(105);
        out.push(111);
        out.push(110);
        out.push(34);
        out.push(58);
        proof {
            assert(out@ =~= lit_open() + emit_string(self.name@) + lit_version());
        }
        push_quoted(&mut out, &self.version);
        out.push(44);
        out.push(34);
        out.push(100);
        out.push(101);
        out.push(112);
        out.push(101);
        out.push(110);
        out.push(100);
        out.push(101);
        out.push(110);
        out.push(99);
        out.push(105);
        out.push(101);
        out.push(115);
        out.push(34);
        out.push(58);
        out.push(123);
        let ghost head = lit_open() + emit_string(self.name@) + lit_version() + emit_string(
            self.version@,
        ) + lit_deps();
        proof {
            assert(out@ =~= head);
        }
        let n = self.deps.len();
        for i in 0..n
            invariant
                n == self.deps@.len(),
                out@ == head + emit_deps(deps_view(self.deps@).take(i as int)),
        {
            if i > 0 {
                out.push(44);
            }
            push_quoted(&mut out, &self.deps[i].key);
            out.push(58);
            push_quoted(&mut out, &self.deps[i].constraint);
            proof {
                let ghost dv = deps_view(self.deps@);
                assert(dv.take(i as int).push(dv[i as int]) =~= dv.take(i as int + 1));
                lemma_emit_deps_push(dv.take(i as int), dv[i as int]);
                if i == 0 {
                    assert(out@ =~= head + emit_pair(dv[0]));
                } else {
                    assert(out@ =~= head + (emit_deps(dv.take(i as int)) + seq![44u8] + emit_pair(
                        dv[i as int],
                    )));
                }
            }
        }
        out.push(125);
        out.push(125);
        proof {
            assert(deps_view(self.deps@).take(n as int) =~= deps_view(self.deps@));
            assert(out@ =~= emit_manifest(self@));
        }
        out
    }
}

} // verus!
