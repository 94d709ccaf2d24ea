//! The canonical wire form of records and change events: one compact JSON
//! object per line. The encoding is defined by spec functions over byte
//! sequences; the executable encoder is proved to produce exactly that
//! encoding, and the parser in `parse` is proved to accept exactly it.

use vstd::prelude::*;
use crate::record::{ChangeModel, ChangeType, DepModel, RecordModel};
use crate::record::{Change, DependencySpec, PackageVersionRecord};

verus! {

/// The lower-case hexadecimal digit for a value below sixteen.
pub open spec fn hex_digit(d: int) -> u8 {
    if d < 10 {
        (48 + d) as u8
    } else {
        (87 + d) as u8
    }
}

/// How one byte of a string is written inside a JSON string: quote and
/// backslash get a two-byte escape, control bytes a `\u00..` escape, and
/// every other byte stands for itself.
pub open spec fn esc_byte(c: u8) -> Seq<u8> {
    if c == 34 {
        seq![92u8, 34]
    } else if c == 92 {
        seq![92u8, 92]
    } else if c < 32 {
        seq![92u8, 117, 48, 48, hex_digit(c as int / 16), hex_digit(c as int % 16)]
    } else {
        seq![c]
    }
}

/// The escaped form of a whole string body.
pub open spec fn esc(s: Seq<u8>) -> Seq<u8>
    decreases s.len(),
{
    if s.len() == 0 {
        Seq::empty()
    } else {
        esc_byte(s[0]) + esc(s.skip(1))
    }
}

/// A JSON string: quote, escaped body, quote.
pub open spec fn enc_str(s: Seq<u8>) -> Seq<u8> {
    seq![34u8] + esc(s) + seq![34u8]
}

/// A JSON boolean.
pub open spec fn enc_bool(b: bool) -> Seq<u8> {
    if b {
        lit_true()
    } else {
        lit_false()
    }
}

/// The continuation of a string list: a comma before each further element.
pub open spec fn enc_strs_rest(xs: Seq<Seq<u8>>) -> Seq<u8>
    decreases xs.len(),
{
    if xs.len() == 0 {
        Seq::empty()
    } else {
        seq![44u8] + enc_str(xs[0]) + enc_strs_rest(xs.skip(1))
    }
}

/// A comma-separated list of JSON strings.
pub open spec fn enc_strs(xs: Seq<Seq<u8>>) -> Seq<u8> {
    if xs.len() == 0 {
        Seq::empty()
    } else {
        enc_str(xs[0]) + enc_strs_rest(xs.skip(1))
    }
}

/// A JSON array of strings.
pub open spec fn enc_str_array(xs: Seq<Seq<u8>>) -> Seq<u8> {
    seq![91u8] + enc_strs(xs) + seq![93u8]
}

/// An optional string: `null` when absent.
pub open spec fn enc_opt_str(o: Option<Seq<u8>>) -> Seq<u8> {
    match o {
        Some(t) => enc_str(t),
        None => lit_null(),
    }
}

/// A dependency specification as a JSON object.
#[verifier::opaque]
pub open spec fn enc_dep(d: DepModel) -> Seq<u8> {
    lit_obj_name() + enc_str(d.name) + lit_version_requirement() + enc_str(d.version_requirement)
        + lit_dep_features() + enc_str_array(d.features) + lit_optional() + enc_bool(d.optional)
        + lit_use_default_features() + enc_bool(d.use_default_features) + lit_target() + enc_opt_str(
        d.target,
    ) + lit_kind() + enc_str(d.kind) + lit_close()
}

/// The continuation of a dependency list.
pub open spec fn enc_deps_rest(ds: Seq<DepModel>) -> Seq<u8>
    decreases ds.len(),
{
    if ds.len() == 0 {
        Seq::empty()
    } else {
        seq![44u8] + enc_dep(ds[0]) + enc_deps_rest(ds.skip(1))
    }
}

/// A comma-separated list of dependency objects.
pub open spec fn enc_deps(ds: Seq<DepModel>) -> Seq<u8> {
    if ds.len() == 0 {
        Seq::empty()
    } else {
        enc_dep(ds[0]) + enc_deps_rest(ds.skip(1))
    }
}

/// One feature-map entry: name, colon, list of enabled features.
pub open spec fn enc_feat(p: (Seq<u8>, Seq<Seq<u8>>)) -> Seq<u8> {
    enc_str(p.0) + seq![58u8] + enc_str_array(p.1)
}

/// The continuation of a feature-map entry list.
pub open spec fn enc_feats_rest(fs: Seq<(Seq<u8>, Seq<Seq<u8>>)>) -> Seq<u8>
    decreases fs.len(),
{
    if fs.len() == 0 {
        Seq::empty()
    } else {
        seq![44u8] + enc_feat(fs[0]) + enc_feats_rest(fs.skip(1))
    }
}

/// A comma-separated list of feature-map entries.
pub open spec fn enc_feats(fs: Seq<(Seq<u8>, Seq<Seq<u8>>)>) -> Seq<u8> {
    if fs.len() == 0 {
        Seq::empty()
    } else {
        enc_feat(fs[0]) + enc_feats_rest(fs.skip(1))
    }
}

/// A whole package-version record as one compact JSON object.
#[verifier::opaque]
pub open spec fn enc_record(m: RecordModel) -> Seq<u8> {
    lit_obj_name() + enc_str(m.name) + lit_version() + enc_str(m.version) + lit_dependencies()
        + enc_deps(m.dependencies) + lit_checksum() + enc_str(m.checksum) + lit_features()
        + enc_feats(m.features) + lit_yanked() + enc_bool(m.yanked) + lit_close()
}

/// The wire name of a diff status.
pub open spec fn enc_delta(d: ChangeType) -> Seq<u8> {
    match d {
        ChangeType::Modified => lit_modified(),
        ChangeType::Deleted => lit_deleted(),
    }
}

/// A change event as one compact JSON object.
pub open spec fn enc_change(c: ChangeModel) -> Seq<u8> {
    lit_delta() + enc_delta(c.delta) + lit_message() + enc_opt_str(c.message) + lit_payload()
        + enc_record(c.payload) + lit_close()
}

/// A change event as one newline-terminated wire line.
pub open spec fn enc_change_line(c: ChangeModel) -> Seq<u8> {
    enc_change(c) + seq![10u8]
}

/// Escaping distributes over concatenation.
pub proof fn lemma_esc_app(a: Seq<u8>, b: Seq<u8>)
    ensures
        esc(a + b) == esc(a) + esc(b),
    decreases a.len(),
{
    if a.len() == 0 {
        assert(a + b =~= b);
        assert(esc(a) + esc(b) =~= esc(b));
    } else {
        assert((a + b).skip(1) =~= a.skip(1) + b);
        lemma_esc_app(a.skip(1), b);
        assert((a + b)[0] == a[0]);
        assert(esc_byte(a[0]) + (esc(a.skip(1)) + esc(b)) =~= (esc_byte(a[0]) + esc(a.skip(1)))
            + esc(b));
    }
}

/// Escaping one more byte appends that byte's escape.
pub proof fn lemma_esc_snoc(a: Seq<u8>, c: u8)
    ensures
        esc(a.push(c)) == esc(a) + esc_byte(c),
{
    assert(a.push(c) =~= a + seq![c]);
    lemma_esc_app(a, seq![c]);
    assert(esc(seq![c]) =~= esc_byte(c)) by {
        reveal_with_fuel(esc, 2);
        assert(seq![c].skip(1) =~= Seq::<u8>::empty());
    }
}

/// Appending to a string list appends a comma and the string's encoding.
#[verifier::rlimit(50)]
pub proof fn lemma_enc_strs_rest_snoc(xs: Seq<Seq<u8>>, v: Seq<u8>)
    ensures
        enc_strs_rest(xs.push(v)) == enc_strs_rest(xs) + seq![44u8] + enc_str(v),
    decreases xs.len(),
{
    reveal_with_fuel(enc_strs_rest, 3);
    if xs.len() == 0 {
        assert(xs.push(v).skip(1) =~= Seq::<Seq<u8>>::empty());
        assert(enc_strs_rest(xs.push(v)) =~= enc_strs_rest(xs) + seq![44u8] + enc_str(v));
    } else {
        assert(xs.push(v).skip(1) =~= xs.skip(1).push(v));
        lemma_enc_strs_rest_snoc(xs.skip(1), v);
        assert(enc_strs_rest(xs.push(v)) =~= enc_strs_rest(xs) + seq![44u8] + enc_str(v));
    }
}

/// Appending to a string list, at the list level.
pub proof fn lemma_enc_strs_snoc(xs: Seq<Seq<u8>>, v: Seq<u8>)
    ensures
        xs.len() == 0 ==> enc_strs(xs.push(v)) == enc_str(v),
        xs.len() > 0 ==> enc_strs(xs.push(v)) == enc_strs(xs) + seq![44u8] + enc_str(v),
{
    if xs.len() == 0 {
        assert(xs.push(v).skip(1) =~= Seq::<Seq<u8>>::empty());
        assert(enc_strs(xs.push(v)) =~= enc_str(v));
    } else {
        assert(xs.push(v).skip(1) =~= xs.skip(1).push(v));
        lemma_enc_strs_rest_snoc(xs.skip(1), v);
        assert(enc_strs(xs.push(v)) =~= enc_strs(xs) + seq![44u8] + enc_str(v));
    }
}

/// Appending to a dependency list.
#[verifier::rlimit(50)]
pub proof fn lemma_enc_deps_rest_snoc(ds: Seq<DepModel>, d: DepModel)
    ensures
        enc_deps_rest(ds.push(d)) == enc_deps_rest(ds) + seq![44u8] + enc_dep(d),
    decreases ds.len(),
{
    reveal_with_fuel(enc_deps_rest, 3);
    if ds.len() == 0 {
        assert(ds.push(d).skip(1) =~= Seq::<DepModel>::empty());
        assert(enc_deps_rest(ds.push(d)) =~= enc_deps_rest(ds) + seq![44u8] + enc_dep(d));
    } else {
        assert(ds.push(d).skip(1) =~= ds.skip(1).push(d));
        lemma_enc_deps_rest_snoc(ds.skip(1), d);
        assert(enc_deps_rest(ds.push(d)) =~= enc_deps_rest(ds) + seq![44u8] + enc_dep(d));
    }
}

/// Appending to a dependency list, at the list level.
#[verifier::rlimit(50)]
pub proof fn lemma_enc_deps_snoc(ds: Seq<DepModel>, d: DepModel)
    ensures
        ds.len() == 0 ==> enc_deps(ds.push(d)) == enc_dep(d),
        ds.len() > 0 ==> enc_deps(ds.push(d)) == enc_deps(ds) + seq![44u8] + enc_dep(d),
{
    if ds.len() == 0 {
        assert(ds.push(d).skip(1) =~= Seq::<DepModel>::empty());
        assert(enc_deps(ds.push(d)) =~= enc_dep(d));
    } else {
        assert(ds.push(d).skip(1) =~= ds.skip(1).push(d));
        lemma_enc_deps_rest_snoc(ds.skip(1), d);
        assert(enc_deps(ds.push(d)) =~= enc_deps(ds) + seq![44u8] + enc_dep(d));
    }
}

/// Appending to a feature-entry list.
#[verifier::rlimit(50)]
pub proof fn lemma_enc_feats_rest_snoc(fs: Seq<(Seq<u8>, Seq<Seq<u8>>)>, f: (Seq<u8>, Seq<Seq<u8>>))
    ensures
        enc_feats_rest(fs.push(f)) == enc_feats_rest(fs) + seq![44u8] + enc_feat(f),
    decreases fs.len(),
{
    reveal_with_fuel(enc_feats_rest, 3);
    if fs.len() == 0 {
        assert(fs.push(f).skip(1) =~= Seq::<(Seq<u8>, Seq<Seq<u8>>)>::empty());
        assert(enc_feats_rest(fs.push(f)) =~= enc_feats_rest(fs) + seq![44u8] + enc_feat(f));
    } else {
        assert(fs.push(f).skip(1) =~= fs.skip(1).push(f));
        lemma_enc_feats_rest_snoc(fs.skip(1), f);
        assert(enc_feats_rest(fs.push(f)) =~= enc_feats_rest(fs) + seq![44u8] + enc_feat(f));
    }
}

/// Appending to a feature-entry list, at the list level.
#[verifier::rlimit(50)]
pub proof fn lemma_enc_feats_snoc(fs: Seq<(Seq<u8>, Seq<Seq<u8>>)>, f: (Seq<u8>, Seq<Seq<u8>>))
    ensures
        fs.len() == 0 ==> enc_feats(fs.push(f)) == enc_feat(f),
        fs.len() > 0 ==> enc_feats(fs.push(f)) == enc_feats(fs) + seq![44u8] + enc_feat(f),
{
    if fs.len() == 0 {
        assert(fs.push(f).skip(1) =~= Seq::<(Seq<u8>, Seq<Seq<u8>>)>::empty());
        assert(enc_feats(fs.push(f)) =~= enc_feat(f));
    } else {
        assert(fs.push(f).skip(1) =~= fs.skip(1).push(f));
        lemma_enc_feats_rest_snoc(fs.skip(1), f);
        assert(enc_feats(fs.push(f)) =~= enc_feats(fs) + seq![44u8] + enc_feat(f));
    }
}

/// The byte sequence `{"name":`.
pub open spec fn lit_obj_name() -> Seq<u8> {
    seq![123u8, 34, 110, 97, 109, 101, 34, 58]
}

pub fn lit_obj_name_bytes() -> (r: Vec<u8>)
    ensures
        r@ == lit_obj_name(),
{
    let mut v: Vec<u8> = Vec::new();
    v.push(123);
    v.push(34);
    v.push(110);
    v.push(97);
    v.push(109);
    v.push(101);
    v.push(34);
    v.push(58);
    proof { assert(v@ =~= lit_obj_name()); }
    v
}

/// The byte sequence `,"version":`.
pub open spec fn lit_version() -> Seq<u8> {
    seq![44u8, 34, 118, 101, 114, 115, 105, 111, 110, 34, 58]
}

pub fn lit_version_bytes() -> (r: Vec<u8>)
    ensures
        r@ == lit_version(),
{
    let mut v: Vec<u8> = Vec::new();
    v.push(44);
    v.push(34);
    v.push(118);
    v.push(101);
    v.push(114);
    v.push(115);
    v.push(105);
    v.push(111);
    v.push(110);
    v.push(34);
    v.push(58);
    proof { assert(v@ =~= lit_version()); }
    v
}

/// The byte sequence `,"dependencies":[`.
pub open spec fn lit_dependencies() -> Seq<u8> {
    seq![44u8, 34, 100, 101, 112, 101, 110, 100, 101, 110, 99, 105, 101, 115, 34, 58, 91]
}

pub fn lit_dependencies_bytes() -> (r: Vec<u8>)
    ensures
        r@ == lit_dependencies(),
{
    let mut v: Vec<u8> = Vec::new();
    v.push(44);
    v.push(34);
    v.push(100);
    v.push(101);
    v.push(112);
    v.push(101);
    v.push(110);
    v.push(100);
    v.push(101);
    v.push(110);
    v.push(99);
    v.push(105);
    v.push(101);
    v.push(115);
    v.push(34);
    v.push(58);
    v.push(91);
    proof { assert(v@ =~= lit_dependencies()); }
    v
}

/// The byte sequence `],"checksum":`.
pub open spec fn lit_checksum() -> Seq<u8> {
    seq![93u8, 44, 34, 99, 104, 101, 99, 107, 115, 117, 109, 34, 58]
}

pub fn lit_checksum_bytes() -> (r: Vec<u8>)
    ensures
        r@ == lit_checksum(),
{
    let mut v: Vec<u8> = Vec::new();
    v.push(93);
    v.push(44);
    v.push(34);
    v.push(99);
    v.push(104);
    v.push(101);
    v.push(99);
    v.push(107);
    v.push(115);
    v.push(117);
    v.push(109);
    v.push(34);
    v.push(58);
    proof { assert(v@ =~= lit_checksum()); }
    v
}

/// The byte sequence `,"features":{`.
pub open spec fn lit_features() -> Seq<u8> {
    seq![44u8, 34, 102, 101, 97, 116, 117, 114, 101, 115, 34, 58, 123]
}

pub fn lit_features_bytes() -> (r: Vec<u8>)
    ensures
        r@ == lit_features(),
{
    let mut v: Vec<u8> = Vec::new();
    v.push(44);
    v.push(34);
    v.push(102);
    v.push(101);
    v.push(97);
    v.push(116);
    v.push(117);
    v.push(114);
    v.push(101);
    v.push(115);
    v.push(34);
    v.push(58);
    v.push(123);
    proof { assert(v@ =~= lit_features()); }
    v
}

/// The byte sequence `},"yanked":`.
pub open spec fn lit_yanked() -> Seq<u8> {
    seq![125u8, 44, 34, 121, 97, 110, 107, 101, 100, 34, 58]
}

pub fn lit_yanked_bytes() -> (r: Vec<u8>)
    ensures
        r@ == lit_yanked(),
{
    let mut v: Vec<u8> = Vec::new();
    v.push(125);
    v.push(44);
    v.push(34);
    v.push(121);
    v.push(97);
    v.push(110);
    v.push(107);
    v.push(101);
    v.push(100);
    v.push(34);
    v.push(58);
    proof { assert(v@ =~= lit_yanked()); }
    v
}

/// The byte sequence `}`.
pub open spec fn lit_close() -> Seq<u8> {
    seq![125u8]
}

pub fn lit_close_bytes() -> (r: Vec<u8>)
    ensures
        r@ == lit_close(),
{
    let mut v: Vec<u8> = Vec::new();
    v.push(125);
    proof { assert(v@ =~= lit_close()); }
    v
}

/// The byte sequence `,"versionRequirement":`.
pub open spec fn lit_version_requirement() -> Seq<u8> {
    seq![44u8, 34, 118, 101, 114, 115, 105, 111, 110, 82, 101, 113, 117, 105, 114, 101, 109, 101, 110, 116, 34, 58]
}

pub fn lit_version_requirement_bytes() -> (r: Vec<u8>)
    ensures
        r@ == lit_version_requirement(),
{
    let mut v: Vec<u8> = Vec::new();
    v.push(44);
    v.push(34);
    v.push(118);
    v.push(101);
    v.push(114);
    v.push(115);
    v.push(105);
    v.push(111);
    v.push(110);
    v.push(82);
    v.push(101);
    v.push(113);
    v.push(117);
    v.push(105);
    v.push(114);
    v.push(101);
    v.push(109);
    v.push(101);
    v.push(110);
    v.push(116);
    v.push(34);
    v.push(58);
    proof { assert(v@ =~= lit_version_requirement()); }
    v
}

/// The byte sequence `,"features":`.
pub open spec fn lit_dep_features() -> Seq<u8> {
    seq![44u8, 34, 102, 101, 97, 116, 117, 114, 101, 115, 34, 58]
}

pub fn lit_dep_features_bytes() -> (r: Vec<u8>)
    ensures
        r@ == lit_dep_features(),
{
    let mut v: Vec<u8> = Vec::new();
    v.push(44);
    v.push(34);
    v.push(102);
    v.push(101);
    v.push(97);
    v.push(116);
    v.push(117);
    v.push(114);
    v.push(101);
    v.push(115);
    v.push(34);
    v.push(58);
    proof { assert(v@ =~= lit_dep_features()); }
    v
}

/// The byte sequence `,"optional":`.
pub open spec fn lit_optional() -> Seq<u8> {
    seq![44u8, 34, 111, 112, 116, 105, 111, 110, 97, 108, 34, 58]
}

pub fn lit_optional_bytes() -> (r: Vec<u8>)
    ensures
        r@ == lit_optional(),
{
    let mut v: Vec<u8> = Vec::new();
    v.push(44);
    v.push(34);
    v.push(111);
    v.push(112);
    v.push(116);
    v.push(105);
    v.push(111);
    v.push(110);
    v.push(97);
    v.push(108);
    v.push(34);
    v.push(58);
    proof { assert(v@ =~= lit_optional()); }
    v
}

/// The byte sequence `,"useDefaultFeatures":`.
pub open spec fn lit_use_default_features() -> Seq<u8> {
    seq![44u8, 34, 117, 115, 101, 68, 101, 102, 97, 117, 108, 116, 70, 101, 97, 116, 117, 114, 101, 115, 34, 58]
}

pub fn lit_use_default_features_bytes() -> (r: Vec<u8>)
    ensures
        r@ == lit_use_default_features(),
{
    let mut v: Vec<u8> = Vec::new();
    v.push(44);
    v.push(34);
    v.push(117);
    v.push(115);
    v.push(101);
    v.push(68);
    v.push(101);
    v.push(102);
    v.push(97);
    v.push(117);
    v.push(108);
    v.push(116);
    v.push(70);
    v.push(101);
    v.push(97);
    v.push(116);
    v.push(117);
    v.push(114);
    v.push(101);
    v.push(115);
    v.push(34);
    v.push(58);
    proof { assert(v@ =~= lit_use_default_features()); }
    v
}

/// The byte sequence `,"target":`.
pub open spec fn lit_target() -> Seq<u8> {
    seq![44u8, 34, 116, 97, 114, 103, 101, 116, 34, 58]
}

pub fn lit_target_bytes() -> (r: Vec<u8>)
    ensures
        r@ == lit_target(),
{
    let mut v: Vec<u8> = Vec::new();
    v.push(44);
    v.push(34);
    v.push(116);
    v.push(97);
    v.push(114);
    v.push(103);
    v.push(101);
    v.push(116);
    v.push(34);
    v.push(58);
    proof { assert(v@ =~= lit_target()); }
    v
}

/// The byte sequence `,"kind":`.
pub open spec fn lit_kind() -> Seq<u8> {
    seq![44u8, 34, 107, 105, 110, 100, 34, 58]
}

pub fn lit_kind_bytes() -> (r: Vec<u8>)
    ensures
        r@ == lit_kind(),
{
    let mut v: Vec<u8> = Vec::new();
    v.push(44);
    v.push(34);
    v.push(107);
    v.push(105);
    v.push(110);
    v.push(100);
    v.push(34);
    v.push(58);
    proof { assert(v@ =~= lit_kind()); }
    v
}

/// The byte sequence `true`.
pub open spec fn lit_true() -> Seq<u8> {
    seq![116u8, 114, 117, 101]
}

pub fn lit_true_bytes() -> (r: Vec<u8>)
    ensures
        r@ == lit_true(),
{
    let mut v: Vec<u8> = Vec::new();
    v.push(116);
    v.push(114);
    v.push(117);
    v.push(101);
    proof { assert(v@ =~= lit_true()); }
    v
}

/// The byte sequence `false`.
pub open spec fn lit_false() -> Seq<u8> {
    seq![102u8, 97, 108, 115, 101]
}

pub fn lit_false_bytes() -> (r: Vec<u8>)
    ensures
        r@ == lit_false(),
{
    let mut v: Vec<u8> = Vec::new();
    v.push(102);
    v.push(97);
    v.push(108);
    v.push(115);
    v.push(101);
    proof { assert(v@ =~= lit_false()); }
    v
}

/// The byte sequence `null`.
pub open spec fn lit_null() -> Seq<u8> {
    seq![110u8, 117, 108, 108]
}

pub fn lit_null_bytes() -> (r: Vec<u8>)
    ensures
        r@ == lit_null(),
{
    let mut v: Vec<u8> = Vec::new();
    v.push(110);
    v.push(117);
    v.push(108);
    v.push(108);
    proof { assert(v@ =~= lit_null()); }
    v
}

/// The byte sequence `{"delta":`.
pub open spec fn lit_delta() -> Seq<u8> {
    seq![123u8, 34, 100, 101, 108, 116, 97, 34, 58]
}

pub fn lit_delta_bytes() -> (r: Vec<u8>)
    ensures
        r@ == lit_delta(),
{
    let mut v: Vec<u8> = Vec::new();
    v.push(123);
    v.push(34);
    v.push(100);
    v.push(101);
    v.push(108);
    v.push(116);
    v.push(97);
    v.push(34);
    v.push(58);
    proof { assert(v@ =~= lit_delta()); }
    v
}

/// The byte sequence `"Modified"`.
pub open spec fn lit_modified() -> Seq<u8> {
    seq![34u8, 77, 111, 100, 105, 102, 105, 101, 100, 34]
}

pub fn lit_modified_bytes() -> (r: Vec<u8>)
    ensures
        r@ == lit_modified(),
{
    let mut v: Vec<u8> = Vec::new();
    v.push(34);
    v.push(77);
    v.push(111);
    v.push(100);
    v.push(105);
    v.push(102);
    v.push(105);
    v.push(101);
    v.push(100);
    v.push(34);
    proof { assert(v@ =~= lit_modified()); }
    v
}

/// The byte sequence `"Deleted"`.
pub open spec fn lit_deleted() -> Seq<u8> {
    seq![34u8, 68, 101, 108, 101, 116, 101, 100, 34]
}

pub fn lit_deleted_bytes() -> (r: Vec<u8>)
    ensures
        r@ == lit_deleted(),
{
    let mut v: Vec<u8> = Vec::new();
    v.push(34);
    v.push(68);
    v.push(101);
    v.push(108);
    v.push(101);
    v.push(116);
    v.push(101);
    v.push(100);
    v.push(34);
    proof { assert(v@ =~= lit_deleted()); }
    v
}

/// The byte sequence `,"message":`.
pub open spec fn lit_message() -> Seq<u8> {
    seq![44u8, 34, 109, 101, 115, 115, 97, 103, 101, 34, 58]
}

pub fn lit_message_bytes() -> (r: Vec<u8>)
    ensures
        r@ == lit_message(),
{
    let mut v: Vec<u8> = Vec::new();
    v.push(44);
    v.push(34);
    v.push(109);
    v.push(101);
    v.push(115);
    v.push(115);
    v.push(97);
    v.push(103);
    v.push(101);
    v.push(34);
    v.push(58);
    proof { assert(v@ =~= lit_message()); }
    v
}

/// The byte sequence `,"payload":`.
pub open spec fn lit_payload() -> Seq<u8> {
    seq![44u8, 34, 112, 97, 121, 108, 111, 97, 100, 34, 58]
}

pub fn lit_payload_bytes() -> (r: Vec<u8>)
    ensures
        r@ == lit_payload(),
{
    let mut v: Vec<u8> = Vec::new();
    v.push(44);
    v.push(34);
    v.push(112);
    v.push(97);
    v.push(121);
    v.push(108);
    v.push(111);
    v.push(97);
    v.push(100);
    v.push(34);
    v.push(58);
    proof { assert(v@ =~= lit_payload()); }
    v
}

/// The lower-case hexadecimal digit for a nibble, executably.
pub fn hex_digit_exec(d: u8) -> (r: u8)
    requires
        d < 16,
    ensures
        r == hex_digit(d as int),
{
    if d < 10 {
        48 + d
    } else {
        87 + d
    }
}

/// Append all of `bs` to `out`.
pub fn write_bytes(out: &mut Vec<u8>, bs: &Vec<u8>)
    ensures
        final(out)@ == old(out)@ + bs@,
{
    proof {
        assert(out@ =~= old(out)@ + bs@.take(0));
    }
    let mut i: usize = 0;
    while i < bs.len()
        invariant
            i <= bs@.len(),
            out@ == old(out)@ + bs@.take(i as int),
        decreases bs@.len() - i,
    {
        out.push(bs[i]);
        proof {
            assert(bs@.take(i as int).push(bs@[i as int]) =~= bs@.take(i as int + 1));
            assert(out@ =~= old(out)@ + bs@.take(i as int + 1));
        }
        i += 1;
    }
    proof {
        assert(bs@.take(bs@.len() as int) =~= bs@);
    }
}

/// Append the JSON string form of `s` to `out`.
pub fn write_str(out: &mut Vec<u8>, s: &Vec<u8>)
    ensures
        final(out)@ == old(out)@ + enc_str(s@),
{
    out.push(34);
    proof {
        assert(out@ =~= old(out)@ + seq![34u8] + esc(s@.take(0)));
    }
    let mut i: usize = 0;
    while i < s.len()
        invariant
            i <= s@.len(),
            out@ == old(out)@ + seq![34u8] + esc(s@.take(i as int)),
        decreases s@.len() - i,
    {
        let c = s[i];
        if c == 34 {
            out.push(92);
            out.push(34);
        } else if c == 92 {
            out.push(92);
            out.push(92);
        } else if c < 32 {
            out.push(92);
            out.push(117);
            out.push(48);
            out.push(48);
            out.push(hex_digit_exec(c / 16));
            out.push(hex_digit_exec(c % 16));
        } else {
            out.push(c);
        }
        proof {
            lemma_esc_snoc(s@.take(i as int), c);
            assert(s@.take(i as int).push(c) =~= s@.take(i as int + 1));
            assert(out@ =~= old(out)@ + seq![34u8] + esc(s@.take(i as int + 1)));
        }
        i += 1;
    }
    out.push(34);
    proof {
        assert(s@.take(s@.len() as int) =~= s@);
        assert(out@ =~= old(out)@ + enc_str(s@));
    }
}

/// Append a JSON boolean to `out`.
pub fn write_bool(out: &mut Vec<u8>, b: bool)
    ensures
        final(out)@ == old(out)@ + enc_bool(b),
{
    if b {
        let t = lit_true_bytes();
        write_bytes(out, &t);
    } else {
        let f = lit_false_bytes();
        write_bytes(out, &f);
    }
}

/// Append a JSON array of strings to `out`.
pub fn write_str_array(out: &mut Vec<u8>, xs: &Vec<Vec<u8>>)
    ensures
        final(out)@ == old(out)@ + enc_str_array(crate::record::byte_views(xs@)),
{
    let ghost vs = crate::record::byte_views(xs@);
    out.push(91);
    proof {
        assert(out@ =~= old(out)@ + seq![91u8] + enc_strs(vs.take(0)));
    }
    let mut i: usize = 0;
    while i < xs.len()
        invariant
            i <= xs@.len(),
            vs == crate::record::byte_views(xs@),
            vs.len() == xs@.len(),
            out@ == old(out)@ + seq![91u8] + enc_strs(vs.take(i as int)),
        decreases xs@.len() - i,
    {
        if i > 0 {
            out.push(44);
        }
        write_str(out, &xs[i]);
        proof {
            assert(vs[i as int] == xs@[i as int]@);
            lemma_enc_strs_snoc(vs.take(i as int), vs[i as int]);
            assert(vs.take(i as int).push(vs[i as int]) =~= vs.take(i as int + 1));
            assert(out@ =~= old(out)@ + seq![91u8] + enc_strs(vs.take(i as int + 1)));
        }
        i += 1;
    }
    out.push(93);
    proof {
        assert(vs.take(vs.len() as int) =~= vs);
        assert(out@ =~= old(out)@ + enc_str_array(vs));
    }
}

/// Append one dependency object to `out`.
#[verifier::rlimit(100)]
pub fn write_dep(out: &mut Vec<u8>, d: &DependencySpec)
    ensures
        final(out)@ == old(out)@ + enc_dep(d@),
{
    let l1 = lit_obj_name_bytes();
    write_bytes(out, &l1);
    write_str(out, &d.name);
    let l2 = lit_version_requirement_bytes();
    write_bytes(out, &l2);
    write_str(out, &d.version_requirement);
    let l3 = lit_dep_features_bytes();
    write_bytes(out, &l3);
    write_str_array(out, &d.features);
    let l4 = lit_optional_bytes();
    write_bytes(out, &l4);
    write_bool(out, d.optional);
    let l5 = lit_use_default_features_bytes();
    write_bytes(out, &l5);
    write_bool(out, d.use_default_features);
    let l6 = lit_target_bytes();
    write_bytes(out, &l6);
    match &d.target {
        Some(t) => write_str(out, t),
        None => {
            let ln = lit_null_bytes();
            write_bytes(out, &ln);
        },
    }
    let l7 = lit_kind_bytes();
    write_bytes(out, &l7);
    write_str(out, &d.kind);
    let l8 = lit_close_bytes();
    write_bytes(out, &l8);
    proof {
        reveal(enc_dep);
        assert(out@ =~= old(out)@ + enc_dep(d@));
    }
}

/// Append a comma-separated list of dependency objects to `out`.
pub fn write_deps(out: &mut Vec<u8>, ds: &Vec<DependencySpec>)
    ensures
        final(out)@ == old(out)@ + enc_deps(crate::record::dep_views(ds@)),
{
    let ghost vs = crate::record::dep_views(ds@);
    proof {
        assert(out@ =~= old(out)@ + enc_deps(vs.take(0)));
    }
    let mut i: usize = 0;
    while i < ds.len()
        invariant
            i <= ds@.len(),
            vs == crate::record::dep_views(ds@),
            vs.len() == ds@.len(),
            out@ == old(out)@ + enc_deps(vs.take(i as int)),
        decreases ds@.len() - i,
    {
        if i > 0 {
            out.push(44);
        }
        write_dep(out, &ds[i]);
        proof {
            assert(vs[i as int] == ds@[i as int]@);
            lemma_enc_deps_snoc(vs.take(i as int), vs[i as int]);
            assert(vs.take(i as int).push(vs[i as int]) =~= vs.take(i as int + 1));
            assert(out@ =~= old(out)@ + enc_deps(vs.take(i as int + 1)));
        }
        i += 1;
    }
    proof {
        assert(vs.take(vs.len() as int) =~= vs);
    }
}

/// Append a comma-separated list of feature-map entries to `out`.
pub fn write_feats(out: &mut Vec<u8>, fs: &Vec<(Vec<u8>, Vec<Vec<u8>>)>)
    ensures
        final(out)@ == old(out)@ + enc_feats(crate::record::feat_views(fs@)),
{
    let ghost vs = crate::record::feat_views(fs@);
    proof {
        assert(out@ =~= old(out)@ + enc_feats(vs.take(0)));
    }
    let mut i: usize = 0;
    while i < fs.len()
        invariant
            i <= fs@.len(),
            vs == crate::record::feat_views(fs@),
            vs.len() == fs@.len(),
            out@ == old(out)@ + enc_feats(vs.take(i as int)),
        decreases fs@.len() - i,
    {
        if i > 0 {
            out.push(44);
        }
        write_str(out, &fs[i].0);
        out.push(58);
        write_str_array(out, &fs[i].1);
        proof {
            assert(vs[i as int] == (fs@[i as int].0@, crate::record::byte_views(fs@[i as int].1@)));
            lemma_enc_feats_snoc(vs.take(i as int), vs[i as int]);
            assert(vs.take(i as int).push(vs[i as int]) =~= vs.take(i as int + 1));
            assert(out@ =~= old(out)@ + enc_feats(vs.take(i as int + 1)));
        }
        i += 1;
    }
    proof {
        assert(vs.take(vs.len() as int) =~= vs);
    }
}

/// Append one whole record object to `out`.
#[verifier::rlimit(100)]
pub fn write_record(out: &mut Vec<u8>, r: &PackageVersionRecord)
    ensures
        final(out)@ == old(out)@ + enc_record(r@),
{
    let l1 = lit_obj_name_bytes();
    write_bytes(out, &l1);
    write_str(out, &r.name);
    let l2 = lit_version_bytes();
    write_bytes(out, &l2);
    write_str(out, &r.version);
    let l3 = lit_dependencies_bytes();
    write_bytes(out, &l3);
    write_deps(out, &r.dependencies);
    let l4 = lit_checksum_bytes();
    write_bytes(out, &l4);
    write_str(out, &r.checksum);
    let l5 = lit_features_bytes();
    write_bytes(out, &l5);
    write_feats(out, &r.features);
    let l6 = lit_yanked_bytes();
    write_bytes(out, &l6);
    write_bool(out, r.yanked);
    let l7 = lit_close_bytes();
    write_bytes(out, &l7);
    proof {
        reveal(enc_record);
        assert(out@ =~= old(out)@ + enc_record(r@));
    }
}

/// The canonical encoding of one record.
pub fn encode_record(r: &PackageVersionRecord) -> (out: Vec<u8>)
    ensures
        out@ == enc_record(r@),
{
    let mut v: Vec<u8> = Vec::new();
    write_record(&mut v, r);
    proof {
        assert(v@ =~= enc_record(r@));
    }
    v
}

/// Append one change-event object to `out`.
#[verifier::rlimit(100)]
pub fn write_change(out: &mut Vec<u8>, c: &Change)
    ensures
        final(out)@ == old(out)@ + enc_change(c@),
{
    let l1 = lit_delta_bytes();
    write_bytes(out, &l1);
    match c.delta {
        ChangeType::Modified => {
            let m = lit_modified_bytes();
            write_bytes(out, &m);
        },
        ChangeType::Deleted => {
            let m = lit_deleted_bytes();
            write_bytes(out, &m);
        },
    }
    let l2 = lit_message_bytes();
    write_bytes(out, &l2);
    match &c.message {
        Some(m) => write_str(out, m),
        None => {
            let n = lit_null_bytes();
            write_bytes(out, &n);
        },
    }
    let l3 = lit_payload_bytes();
    write_bytes(out, &l3);
    write_record(out, &c.payload);
    let l4 = lit_close_bytes();
    write_bytes(out, &l4);
    proof {
        assert(out@ =~= old(out)@ + enc_change(c@));
    }
}

/// One event as the stream writes it: compact JSON and a trailing newline.
pub fn encode_change_line(c: &Change) -> (out: Vec<u8>)
    ensures
        out@ == enc_change_line(c@),
{
    let mut v: Vec<u8> = Vec::new();
    write_change(&mut v, c);
    v.push(10);
    proof {
        assert(v@ =~= enc_change_line(c@));
    }
    v
}

} // verus!
