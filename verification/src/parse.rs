//! The strict parser for the canonical wire form: it accepts exactly the
//! byte strings the encoder in `codec` produces. Its contract states both
//! directions: whatever it accepts re-encodes to the input, and every
//! canonical encoding is accepted and yields the encoded record.

use vstd::prelude::*;
use crate::codec::{enc_bool, enc_dep, enc_deps, enc_deps_rest, enc_feat, enc_feats};
use crate::codec::{enc_feats_rest, enc_opt_str, enc_record, enc_str, enc_str_array};
use crate::codec::{enc_strs, enc_strs_rest, esc, esc_byte, hex_digit};
use crate::codec::{lit_checksum, lit_checksum_bytes, lit_close, lit_close_bytes};
use crate::codec::{lit_dep_features, lit_dep_features_bytes, lit_dependencies};
use crate::codec::{lit_dependencies_bytes, lit_false, lit_false_bytes, lit_features};
use crate::codec::{lit_features_bytes, lit_kind, lit_kind_bytes, lit_null, lit_null_bytes};
use crate::codec::{lit_obj_name, lit_obj_name_bytes, lit_optional, lit_optional_bytes};
use crate::codec::{lit_target, lit_target_bytes, lit_true, lit_true_bytes};
use crate::codec::{lit_use_default_features, lit_use_default_features_bytes};
use crate::codec::{lit_version, lit_version_bytes, lit_version_requirement};
use crate::codec::{lit_version_requirement_bytes, lit_yanked, lit_yanked_bytes};
use crate::codec::{lemma_esc_snoc, lemma_enc_strs_snoc, lemma_enc_deps_snoc, lemma_enc_feats_snoc};
use crate::record::{byte_views, dep_views, feat_views, opt_bytes_view};
use crate::record::{DepModel, DependencySpec, PackageVersionRecord, RecordModel};
use crate::support::{lemma_concat_from_prefix, lemma_consume, lemma_prefix_from_concat};
use crate::support::{lemma_add_assoc, lemma_skip_split, lemma_subrange_concat, starts_with};

verus! {

/// The first byte of any escaped-byte form is never a quote, and it is a
/// backslash exactly for the bytes that need an escape.
proof fn lemma_esc_byte_shape(c: u8)
    ensures
        esc_byte(c).len() >= 1,
        esc_byte(c)[0] != 34,
        c == 34 || c == 92 || c < 32 ==> esc_byte(c)[0] == 92 && esc_byte(c).len() >= 2,
        c == 34 ==> esc_byte(c) == seq![92u8, 34u8],
        c == 92 ==> esc_byte(c) == seq![92u8, 92u8],
        c < 32 ==> esc_byte(c) == seq![
            92u8,
            117u8,
            48u8,
            48u8,
            hex_digit(c as int / 16),
            hex_digit(c as int % 16),
        ],
        !(c == 34 || c == 92 || c < 32) ==> esc_byte(c) == seq![c],
{
}

/// Unfolding one byte off the escaped form of a nonempty suffix.
proof fn lemma_esc_head(m: Seq<u8>, a: int)
    requires
        0 <= a < m.len(),
    ensures
        esc(m.skip(a)) == esc_byte(m[a]) + esc(m.skip(a + 1)),
{
    assert(m.skip(a).len() > 0);
    assert(m.skip(a)[0] == m[a]);
    assert(m.skip(a).skip(1) =~= m.skip(a + 1));
}

/// Expect the exact bytes of `lit` at position `i`.
fn parse_lit(s: &[u8], i: usize, lit: &Vec<u8>) -> (r: Option<usize>)
    requires
        i <= s@.len(),
    ensures
        r matches Some(j) ==> j == i + lit@.len() && j <= s@.len() && s@.subrange(
            i as int,
            j as int,
        ) == lit@,
        i + lit@.len() <= s@.len() && s@.subrange(i as int, i + lit@.len()) == lit@ ==> (r matches
            Some(j) && j == i + lit@.len()),
{
    if s.len() - i < lit.len() {
        return None;
    }
    let end: usize = i + lit.len();
    let mut k: usize = 0;
    while k < lit.len()
        invariant
            end == i + lit@.len(),
            end <= s@.len(),
            k <= lit@.len(),
            forall|t: int| 0 <= t < k ==> s@[i + t] == lit@[t],
        decreases lit@.len() - k,
    {
        if s[i + k] != lit[k] {
            proof {
                assert(s@.subrange(i as int, i + lit@.len())[k as int] == s@[i + k]);
            }
            return None;
        }
        k += 1;
    }
    proof {
        assert(s@.subrange(i as int, i + lit@.len()) =~= lit@);
    }
    Some(i + lit.len())
}

/// The value of a lower-case hexadecimal digit byte, if it is one.
fn hex_val(b: u8) -> (r: Option<u8>)
    ensures
        r matches Some(v) ==> v < 16 && hex_digit(v as int) == b,
        forall|v: int| 0 <= v < 16 && hex_digit(v) == b ==> (r matches Some(w) && w == v),
{
    if 48 <= b && b <= 57 {
        Some(b - 48)
    } else if 97 <= b && b <= 102 {
        Some(b - 87)
    } else {
        None
    }
}

/// Parse a JSON string at `i`: quote, escaped body, closing quote.
fn parse_string(s: &[u8], i: usize) -> (r: Option<(Vec<u8>, usize)>)
    requires
        i <= s@.len(),
    ensures
        r matches Some(p) ==> i < p.1 <= s@.len() && s@.subrange(i as int, p.1 as int) == enc_str(
            p.0@,
        ),
        forall|m: Seq<u8>| #[trigger] starts_with(s@.skip(i as int), enc_str(m)) ==> (r matches Some(
            p,
        ) && p.0@ == m && p.1 == i + enc_str(m).len()),
{
    proof {
        assert forall|m: Seq<u8>| #[trigger] starts_with(s@.skip(i as int), enc_str(m)) implies s@
            .skip(i as int) == enc_str(m) + s@.skip(i + enc_str(m).len()) by {
            lemma_concat_from_prefix(s@, i as int, enc_str(m));
        }
    }
    if i >= s.len() || s[i] != 34 {
        proof {
            assert forall|m: Seq<u8>| !(#[trigger] starts_with(
                s@.skip(i as int),
                enc_str(m),
            )) by {
                if starts_with(s@.skip(i as int), enc_str(m)) {
                    assert(s@.skip(i as int)[0] == (enc_str(m) + s@.skip(i + enc_str(m).len()))[0]);
                    assert(s@[i as int] == 34);
                }
            }
        }
        return None;
    }
    let mut acc: Vec<u8> = Vec::new();
    let mut k: usize = i + 1;
    proof {
        assert(s@.subrange(i as int + 1, k as int) =~= esc(acc@));
        assert forall|m: Seq<u8>| #[trigger] starts_with(s@.skip(i as int), enc_str(m)) implies acc@
            .len() <= m.len() && acc@ == m.take(acc@.len() as int) && s@.skip(k as int) == esc(
            m.skip(acc@.len() as int),
        ) + seq![34u8] + s@.skip(i + enc_str(m).len()) by {
            let rr = s@.skip(i + enc_str(m).len());
            assert(s@.skip(i as int) == enc_str(m) + rr);
            assert(enc_str(m) + rr =~= seq![34u8] + (esc(m) + seq![34u8] + rr));
            lemma_skip_split(s@, i as int, seq![34u8], esc(m) + seq![34u8] + rr);
            assert(m.skip(0) =~= m);
            assert(acc@ =~= m.take(0));
            assert(s@.skip(k as int) =~= esc(m.skip(0)) + seq![34u8] + rr);
        }
    }
    loop
        invariant
            i < k <= s@.len(),
            s@[i as int] == 34,
            s@.subrange(i as int + 1, k as int) == esc(acc@),
            forall|m: Seq<u8>| #[trigger] starts_with(s@.skip(i as int), enc_str(m)) ==> acc@.len()
                <= m.len() && acc@ == m.take(acc@.len() as int) && s@.skip(k as int) == esc(
                m.skip(acc@.len() as int),
            ) + seq![34u8] + s@.skip(i + enc_str(m).len()),
        decreases s@.len() - k,
    {
        proof {
            assert forall|m: Seq<u8>| #[trigger] starts_with(s@.skip(i as int), enc_str(m)) && acc@
                .len() < m.len() implies s@.skip(k as int) == esc_byte(m[acc@.len() as int]) + (esc(
                m.skip(acc@.len() as int + 1),
            ) + seq![34u8] + s@.skip(i + enc_str(m).len())) by {
                lemma_esc_head(m, acc@.len() as int);
                assert(esc(m.skip(acc@.len() as int)) + seq![34u8] + s@.skip(i + enc_str(m).len())
                    =~= esc_byte(m[acc@.len() as int]) + (esc(m.skip(acc@.len() as int + 1))
                    + seq![34u8] + s@.skip(i + enc_str(m).len())));
            }
            assert forall|m: Seq<u8>| #[trigger] starts_with(s@.skip(i as int), enc_str(m)) && acc@
                .len() == m.len() implies s@.skip(k as int) == seq![34u8] + s@.skip(
                i + enc_str(m).len(),
            ) by {
                assert(m.skip(m.len() as int) =~= Seq::<u8>::empty());
                assert(esc(Seq::<u8>::empty()) + seq![34u8] + s@.skip(i + enc_str(m).len()) =~= seq![
                    34u8,
                ] + s@.skip(i + enc_str(m).len()));
            }
        }
        if k >= s.len() {
            proof {
                assert forall|m: Seq<u8>| !(#[trigger] starts_with(
                    s@.skip(i as int),
                    enc_str(m),
                )) by {
                    if starts_with(s@.skip(i as int), enc_str(m)) {
                        if acc@.len() < m.len() {
                            lemma_esc_byte_shape(m[acc@.len() as int]);
                        }
                        assert(s@.skip(k as int).len() >= 1);
                    }
                }
            }
            return None;
        }
        let c = s[k];
        if c == 34 {
            proof {
                assert forall|m: Seq<u8>| #[trigger] starts_with(
                    s@.skip(i as int),
                    enc_str(m),
                ) implies acc@ == m && k + 1 == i + enc_str(m).len() by {
                    if acc@.len() < m.len() {
                        lemma_esc_byte_shape(m[acc@.len() as int]);
                        assert(s@.skip(k as int)[0] == esc_byte(m[acc@.len() as int])[0]);
                        assert(false);
                    }
                    assert(acc@ =~= m);
                    assert(enc_str(m).len() == 2 + esc(m).len());
                    assert(s@.subrange(i as int + 1, k as int).len() == esc(acc@).len());
                }
                assert(s@.subrange(i as int, k as int + 1) =~= enc_str(acc@)) by {
                    assert forall|t: int| 0 <= t < k + 1 - i implies s@.subrange(
                        i as int,
                        k as int + 1,
                    )[t] == enc_str(acc@)[t] by {
                        if t == 0 {
                        } else if t < k - i {
                            assert(s@.subrange(i as int + 1, k as int)[t - 1] == esc(acc@)[t - 1]);
                        } else {
                            assert(s@[k as int] == 34);
                        }
                    }
                }
            }
            return Some((acc, k + 1));
        } else if c == 92 {
            if s.len() - k < 2 {
                proof {
                    assert forall|m: Seq<u8>| !(#[trigger] starts_with(
                        s@.skip(i as int),
                        enc_str(m),
                    )) by {
                        if starts_with(s@.skip(i as int), enc_str(m)) {
                            if acc@.len() == m.len() {
                                assert(s@.skip(k as int)[0] == 34);
                                assert(false);
                            }
                            let mc = m[acc@.len() as int];
                            lemma_esc_byte_shape(mc);
                            assert(s@.skip(k as int)[0] == esc_byte(mc)[0]);
                            assert(esc_byte(mc)[0] == 92);
                            assert(s@.skip(k as int).len() >= esc_byte(mc).len() + 1);
                        }
                    }
                }
                return None;
            }
            let e = s[k + 1];
            proof {
                assert forall|m: Seq<u8>| #[trigger] starts_with(s@.skip(i as int), enc_str(m))
                    implies acc@.len() < m.len() && esc_byte(m[acc@.len() as int])[0] == 92 && (
                esc_byte(m[acc@.len() as int]).len() >= 2 ==> s@.skip(k as int)[1] == esc_byte(
                    m[acc@.len() as int],
                )[1]) by {
                    if acc@.len() == m.len() {
                        assert(s@.skip(k as int)[0] == 34);
                        assert(s@[k as int] == 92);
                        assert(false);
                    }
                    let mc = m[acc@.len() as int];
                    lemma_esc_byte_shape(mc);
                    assert(s@.skip(k as int)[0] == esc_byte(mc)[0]);
                    if esc_byte(mc)[0] != 92 {
                        assert(esc_byte(mc) == seq![mc]);
                        assert(false);
                    }
                }
            }
            if e == 34 || e == 92 {
                let ghost oldacc = acc@;
                acc.push(e);
                proof {
                    lemma_esc_snoc(oldacc, e);
                    assert(esc_byte(e) =~= seq![92u8, e]);
                    assert(s@.subrange(i as int + 1, k as int + 2) =~= esc(acc@)) by {
                        assert(s@.subrange(i as int + 1, k as int + 2) =~= s@.subrange(
                            i as int + 1,
                            k as int,
                        ) + seq![s@[k as int], s@[k as int + 1]]);
                    }
                    assert forall|m: Seq<u8>| #[trigger] starts_with(
                        s@.skip(i as int),
                        enc_str(m),
                    ) implies acc@.len() <= m.len() && acc@ == m.take(acc@.len() as int) && s@.skip(
                        k as int + 2,
                    ) == esc(m.skip(acc@.len() as int)) + seq![34u8] + s@.skip(
                        i + enc_str(m).len(),
                    ) by {
                        let a = oldacc.len() as int;
                        let mc = m[a];
                        lemma_esc_byte_shape(mc);
                        assert(s@.skip(k as int)[1] == esc_byte(mc)[1]);
                        assert(mc == e) by {
                            if mc < 32 {
                                assert(esc_byte(mc)[1] == 117);
                                assert(false);
                            }
                        }
                        assert(acc@ =~= m.take(a + 1)) by {
                            assert(m.take(a + 1) =~= m.take(a).push(mc));
                        }
                        lemma_skip_split(
                            s@,
                            k as int,
                            esc_byte(mc),
                            esc(m.skip(a + 1)) + seq![34u8] + s@.skip(i + enc_str(m).len()),
                        );
                    }
                }
                k += 2;
            } else if e == 117 {
                if s.len() - k < 6 {
                    proof {
                        assert forall|m: Seq<u8>| !(#[trigger] starts_with(
                            s@.skip(i as int),
                            enc_str(m),
                        )) by {
                            if starts_with(s@.skip(i as int), enc_str(m)) {
                                let mc = m[acc@.len() as int];
                                lemma_esc_byte_shape(mc);
                                assert(mc < 32) by {
                                    if mc == 34 || mc == 92 {
                                        assert(s@.skip(k as int)[1] == esc_byte(mc)[1]);
                                        assert(false);
                                    }
                                }
                                assert(s@.skip(k as int).len() >= esc_byte(mc).len() + 1);
                            }
                        }
                    }
                    return None;
                }
                proof {
                    assert forall|m: Seq<u8>| #[trigger] starts_with(
                        s@.skip(i as int),
                        enc_str(m),
                    ) implies m[acc@.len() as int] < 32 && s@.skip(k as int)[2] == 48 && s@.skip(
                        k as int,
                    )[3] == 48 && s@.skip(k as int)[4] == hex_digit(
                        m[acc@.len() as int] as int / 16,
                    ) && s@.skip(k as int)[5] == hex_digit(m[acc@.len() as int] as int % 16) by {
                        let mc = m[acc@.len() as int];
                        lemma_esc_byte_shape(mc);
                        if mc == 34 || mc == 92 {
                            assert(s@.skip(k as int)[1] == esc_byte(mc)[1]);
                            assert(false);
                        }
                        assert(s@.skip(k as int)[2] == esc_byte(mc)[2]);
                        assert(s@.skip(k as int)[3] == esc_byte(mc)[3]);
                        assert(s@.skip(k as int)[4] == esc_byte(mc)[4]);
                        assert(s@.skip(k as int)[5] == esc_byte(mc)[5]);
                    }
                }
                if s[k + 2] != 48 || s[k + 3] != 48 {
                    return None;
                }
                let h1 = s[k + 4];
                let h2 = s[k + 5];
                let v1: u8 = if h1 == 48 {
                    0
                } else if h1 == 49 {
                    1
                } else {
                    proof {
                        assert forall|m: Seq<u8>| !(#[trigger] starts_with(
                            s@.skip(i as int),
                            enc_str(m),
                        )) by {
                            if starts_with(s@.skip(i as int), enc_str(m)) {
                                let mc = m[acc@.len() as int];
                                assert(h1 == hex_digit(mc as int / 16));
                                assert(mc as int / 16 == 0 || mc as int / 16 == 1);
                            }
                        }
                    }
                    return None;
                };
                let v2: u8 = match hex_val(h2) {
                    Some(v) => v,
                    None => {
                        proof {
                            assert forall|m: Seq<u8>| !(#[trigger] starts_with(
                                s@.skip(i as int),
                                enc_str(m),
                            )) by {
                                if starts_with(s@.skip(i as int), enc_str(m)) {
                                    let mc = m[acc@.len() as int];
                                    assert(h2 == hex_digit(mc as int % 16));
                                    assert(0 <= mc as int % 16 < 16);
                                }
                            }
                        }
                        return None;
                    },
                };
                let cval: u8 = v1 * 16 + v2;
                let ghost oldacc = acc@;
                acc.push(cval);
                proof {
                    assert(cval < 32);
                    assert(cval as int / 16 == v1 as int && cval as int % 16 == v2 as int) by {
                        if v1 == 0 {
                            assert(cval == v2);
                        } else {
                            assert(cval == 16 + v2);
                        }
                    }
                    lemma_esc_snoc(oldacc, cval);
                    assert(esc_byte(cval) =~= seq![92u8, 117u8, 48u8, 48u8, h1, h2]) by {
                        assert(hex_digit(v1 as int) == h1);
                        assert(hex_digit(v2 as int) == h2);
                    }
                    assert(s@.subrange(i as int + 1, k as int + 6) =~= esc(acc@)) by {
                        assert(s@.subrange(i as int + 1, k as int + 6) =~= s@.subrange(
                            i as int + 1,
                            k as int,
                        ) + seq![
                            s@[k as int],
                            s@[k as int + 1],
                            s@[k as int + 2],
                            s@[k as int + 3],
                            s@[k as int + 4],
                            s@[k as int + 5],
                        ]);
                    }
                    assert forall|m: Seq<u8>| #[trigger] starts_with(
                        s@.skip(i as int),
                        enc_str(m),
                    ) implies acc@.len() <= m.len() && acc@ == m.take(acc@.len() as int) && s@.skip(
                        k as int + 6,
                    ) == esc(m.skip(acc@.len() as int)) + seq![34u8] + s@.skip(
                        i + enc_str(m).len(),
                    ) by {
                        let a = oldacc.len() as int;
                        let mc = m[a];
                        lemma_esc_byte_shape(mc);
                        assert(mc < 32);
                        assert(hex_digit(mc as int / 16) == h1 && hex_digit(mc as int % 16) == h2);
                        assert(mc == cval) by {
                            assert(mc as int / 16 == v1 as int) by {
                                if mc as int / 16 == 0 {
                                    assert(hex_digit(0) == 48);
                                } else {
                                    assert(mc as int / 16 == 1);
                                    assert(hex_digit(1) == 49);
                                }
                            }
                            assert(mc as int % 16 == v2 as int) by {
                                let d = mc as int % 16;
                                if d < 10 {
                                    assert(hex_digit(d) == 48 + d);
                                    assert(48 <= h2 <= 57);
                                } else {
                                    assert(hex_digit(d) == 87 + d);
                                    assert(97 <= h2 <= 102);
                                }
                            }
                            assert(mc as int == (mc as int / 16) * 16 + mc as int % 16);
                        }
                        assert(acc@ =~= m.take(a + 1)) by {
                            assert(m.take(a + 1) =~= m.take(a).push(mc));
                        }
                        lemma_skip_split(
                            s@,
                            k as int,
                            esc_byte(mc),
                            esc(m.skip(a + 1)) + seq![34u8] + s@.skip(i + enc_str(m).len()),
                        );
                    }
                }
                k += 6;
            } else {
                proof {
                    assert forall|m: Seq<u8>| !(#[trigger] starts_with(
                        s@.skip(i as int),
                        enc_str(m),
                    )) by {
                        if starts_with(s@.skip(i as int), enc_str(m)) {
                            let mc = m[acc@.len() as int];
                            lemma_esc_byte_shape(mc);
                            if mc == 34 || mc == 92 {
                                assert(s@.skip(k as int)[1] == esc_byte(mc)[1]);
                            } else {
                                assert(s@.skip(k as int)[1] == esc_byte(mc)[1]);
                                assert(esc_byte(mc)[1] == 117);
                            }
                        }
                    }
                }
                return None;
            }
        } else if c < 32 {
            proof {
                assert forall|m: Seq<u8>| !(#[trigger] starts_with(
                    s@.skip(i as int),
                    enc_str(m),
                )) by {
                    if starts_with(s@.skip(i as int), enc_str(m)) {
                        if acc@.len() == m.len() {
                            assert(s@.skip(k as int)[0] == 34);
                            assert(false);
                        }
                        let mc = m[acc@.len() as int];
                        lemma_esc_byte_shape(mc);
                        assert(s@.skip(k as int)[0] == esc_byte(mc)[0]);
                        if mc == 34 || mc == 92 || mc < 32 {
                            assert(esc_byte(mc)[0] == 92);
                        } else {
                            assert(esc_byte(mc)[0] == mc);
                        }
                    }
                }
            }
            return None;
        } else {
            let ghost oldacc = acc@;
            acc.push(c);
            proof {
                lemma_esc_snoc(oldacc, c);
                assert(esc_byte(c) =~= seq![c]);
                assert(s@.subrange(i as int + 1, k as int + 1) =~= esc(acc@)) by {
                    assert(s@.subrange(i as int + 1, k as int + 1) =~= s@.subrange(
                        i as int + 1,
                        k as int,
                    ) + seq![s@[k as int]]);
                }
                assert forall|m: Seq<u8>| #[trigger] starts_with(
                    s@.skip(i as int),
                    enc_str(m),
                ) implies acc@.len() <= m.len() && acc@ == m.take(acc@.len() as int) && s@.skip(
                    k as int + 1,
                ) == esc(m.skip(acc@.len() as int)) + seq![34u8] + s@.skip(
                    i + enc_str(m).len(),
                ) by {
                    let a = oldacc.len() as int;
                    if a == m.len() {
                        assert(s@.skip(k as int)[0] == 34);
                        assert(false);
                    }
                    let mc = m[a];
                    lemma_esc_byte_shape(mc);
                    assert(s@.skip(k as int)[0] == esc_byte(mc)[0]);
                    assert(mc == c) by {
                        if mc == 34 || mc == 92 || mc < 32 {
                            assert(esc_byte(mc)[0] == 92);
                            assert(false);
                        }
                    }
                    assert(acc@ =~= m.take(a + 1)) by {
                        assert(m.take(a + 1) =~= m.take(a).push(mc));
                    }
                    lemma_skip_split(
                        s@,
                        k as int,
                        esc_byte(mc),
                        esc(m.skip(a + 1)) + seq![34u8] + s@.skip(i + enc_str(m).len()),
                    );
                }
            }
            k += 1;
        }
    }
}

/// Parse a JSON boolean at `i`.
fn parse_bool(s: &[u8], i: usize) -> (r: Option<(bool, usize)>)
    requires
        i <= s@.len(),
    ensures
        r matches Some(p) ==> i < p.1 <= s@.len() && s@.subrange(i as int, p.1 as int) == enc_bool(
            p.0,
        ),
        forall|b: bool| #[trigger] starts_with(s@.skip(i as int), enc_bool(b)) ==> (r matches Some(
            p,
        ) && p.0 == b && p.1 == i + enc_bool(b).len()),
{
    let t = lit_true_bytes();
    let rt = parse_lit(s, i, &t);
    match rt {
        Some(j) => {
            proof {
                assert forall|b: bool| #[trigger] starts_with(
                    s@.skip(i as int),
                    enc_bool(b),
                ) implies b == true && j == i + enc_bool(b).len() by {
                    if !b {
                        lemma_concat_from_prefix(s@, i as int, enc_bool(b));
                        assert(s@.subrange(i as int, i + lit_false().len())[0] == lit_false()[0]);
                        assert(s@.subrange(i as int, i + lit_true().len())[0] == lit_true()[0]);
                    }
                }
            }
            return Some((true, j));
        },
        None => {},
    }
    let f = lit_false_bytes();
    let rf = parse_lit(s, i, &f);
    match rf {
        Some(j) => {
            proof {
                assert forall|b: bool| #[trigger] starts_with(
                    s@.skip(i as int),
                    enc_bool(b),
                ) implies b == false && j == i + enc_bool(b).len() by {
                    if b {
                        lemma_concat_from_prefix(s@, i as int, enc_bool(b));
                    }
                }
            }
            return Some((false, j));
        },
        None => {
            proof {
                assert forall|b: bool| !(#[trigger] starts_with(
                    s@.skip(i as int),
                    enc_bool(b),
                )) by {
                    if starts_with(s@.skip(i as int), enc_bool(b)) {
                        lemma_concat_from_prefix(s@, i as int, enc_bool(b));
                    }
                }
            }
            return None;
        },
    }
}

/// Parse `null` or a JSON string at `i`.
fn parse_opt_str(s: &[u8], i: usize) -> (r: Option<(Option<Vec<u8>>, usize)>)
    requires
        i <= s@.len(),
    ensures
        r matches Some(p) ==> i < p.1 <= s@.len() && s@.subrange(i as int, p.1 as int)
            == enc_opt_str(opt_bytes_view(p.0)),
        forall|o: Option<Seq<u8>>| #[trigger] starts_with(s@.skip(i as int), enc_opt_str(o)) ==> (r
            matches Some(p) && opt_bytes_view(p.0) == o && p.1 == i + enc_opt_str(o).len()),
{
    let n = lit_null_bytes();
    let rn = parse_lit(s, i, &n);
    match rn {
        Some(j) => {
            proof {
                assert forall|o: Option<Seq<u8>>| #[trigger] starts_with(
                    s@.skip(i as int),
                    enc_opt_str(o),
                ) implies o is None && j == i + enc_opt_str(o).len() by {
                    if o matches Some(tv) {
                        lemma_concat_from_prefix(s@, i as int, enc_opt_str(o));
                        assert(enc_opt_str(o)[0] == 34);
                        assert(s@.subrange(i as int, i + enc_opt_str(o).len())[0] == 34);
                        assert(s@.subrange(i as int, i + lit_null().len())[0] == lit_null()[0]);
                    }
                }
            }
            return Some((None, j));
        },
        None => {},
    }
    match parse_string(s, i) {
        Some((v, j)) => {
            proof {
                assert forall|o: Option<Seq<u8>>| #[trigger] starts_with(
                    s@.skip(i as int),
                    enc_opt_str(o),
                ) implies o matches Some(tv) && v@ == tv && j == i + enc_opt_str(o).len() by {
                    if o is None {
                        lemma_concat_from_prefix(s@, i as int, enc_opt_str(o));
                    } else {
                        let tv = o->Some_0;
                        assert(starts_with(s@.skip(i as int), enc_str(tv)));
                    }
                }
            }
            Some((Some(v), j))
        },
        None => {
            proof {
                assert forall|o: Option<Seq<u8>>| !(#[trigger] starts_with(
                    s@.skip(i as int),
                    enc_opt_str(o),
                )) by {
                    if starts_with(s@.skip(i as int), enc_opt_str(o)) {
                        if o is None {
                            lemma_concat_from_prefix(s@, i as int, enc_opt_str(o));
                        } else {
                            let tv = o->Some_0;
                            assert(starts_with(s@.skip(i as int), enc_str(tv)));
                        }
                    }
                }
            }
            None
        },
    }
}

/// Parse a JSON array of strings at `i`, brackets included.
fn parse_str_array(s: &[u8], i: usize) -> (r: Option<(Vec<Vec<u8>>, usize)>)
    requires
        i <= s@.len(),
    ensures
        r matches Some(p) ==> i < p.1 <= s@.len() && s@.subrange(i as int, p.1 as int)
            == enc_str_array(byte_views(p.0@)),
        forall|xs: Seq<Seq<u8>>| #[trigger] starts_with(s@.skip(i as int), enc_str_array(xs)) ==> (
        r matches Some(p) && byte_views(p.0@) == xs && p.1 == i + enc_str_array(xs).len()),
{
    proof {
        assert forall|xs: Seq<Seq<u8>>| #[trigger] starts_with(
            s@.skip(i as int),
            enc_str_array(xs),
        ) implies s@.skip(i as int) == seq![91u8] + (enc_strs(xs) + (seq![93u8] + s@.skip(
            i + enc_str_array(xs).len(),
        ))) by {
            lemma_concat_from_prefix(s@, i as int, enc_str_array(xs));
            let rr = s@.skip(i + enc_str_array(xs).len());
            assert(enc_str_array(xs) + rr =~= seq![91u8] + (enc_strs(xs) + (seq![93u8] + rr)));
        }
    }
    if i >= s.len() || s[i] != 91 {
        proof {
            assert forall|xs: Seq<Seq<u8>>| !(#[trigger] starts_with(
                s@.skip(i as int),
                enc_str_array(xs),
            )) by {
                if starts_with(s@.skip(i as int), enc_str_array(xs)) {
                    assert(s@.skip(i as int)[0] == 91);
                }
            }
        }
        return None;
    }
    proof {
        assert forall|xs: Seq<Seq<u8>>| #[trigger] starts_with(
            s@.skip(i as int),
            enc_str_array(xs),
        ) && xs.len() > 0 implies s@.skip(i as int + 1) == enc_str(xs[0]) + (enc_strs_rest(
            xs.skip(1),
        ) + (seq![93u8] + s@.skip(i + enc_str_array(xs).len()))) by {
            let rr = s@.skip(i + enc_str_array(xs).len());
            lemma_skip_split(s@, i as int, seq![91u8], enc_strs(xs) + (seq![93u8] + rr));
            assert(enc_strs(xs) + (seq![93u8] + rr) =~= enc_str(xs[0]) + (enc_strs_rest(xs.skip(1))
                + (seq![93u8] + rr)));
        }
        assert forall|xs: Seq<Seq<u8>>| #[trigger] starts_with(
            s@.skip(i as int),
            enc_str_array(xs),
        ) && xs.len() == 0 implies s@.skip(i as int + 1) == seq![93u8] + s@.skip(
            i + enc_str_array(xs).len(),
        ) by {
            let rr = s@.skip(i + enc_str_array(xs).len());
            lemma_skip_split(s@, i as int, seq![91u8], enc_strs(xs) + (seq![93u8] + rr));
            assert(enc_strs(xs) + (seq![93u8] + rr) =~= seq![93u8] + rr);
        }
    }
    if s.len() - i < 2 {
        proof {
            assert forall|xs: Seq<Seq<u8>>| !(#[trigger] starts_with(
                s@.skip(i as int),
                enc_str_array(xs),
            )) by {
                if starts_with(s@.skip(i as int), enc_str_array(xs)) {
                    assert(s@.skip(i as int + 1).len() >= 1);
                }
            }
        }
        return None;
    }
    if s[i + 1] == 93 {
        let out: Vec<Vec<u8>> = Vec::new();
        proof {
            assert forall|xs: Seq<Seq<u8>>| #[trigger] starts_with(
                s@.skip(i as int),
                enc_str_array(xs),
            ) implies byte_views(out@) == xs && i + 2 == i + enc_str_array(xs).len() by {
                if xs.len() > 0 {
                    assert(s@.skip(i as int + 1)[0] == enc_str(xs[0])[0]);
                    assert(enc_str(xs[0])[0] == 34);
                    assert(false);
                }
                assert(byte_views(out@) =~= xs);
            }
            assert(byte_views(out@) =~= Seq::<Seq<u8>>::empty());
            assert(s@.subrange(i as int, i + 2) =~= enc_str_array(byte_views(out@)));
        }
        return Some((out, i + 2));
    }
    let mut acc: Vec<Vec<u8>> = Vec::new();
    let mut k: usize = i + 1;
    proof {
        assert(byte_views(acc@) =~= Seq::<Seq<u8>>::empty());
        assert forall|xs: Seq<Seq<u8>>| #[trigger] starts_with(
            s@.skip(i as int),
            enc_str_array(xs),
        ) implies byte_views(acc@).len() < xs.len() && byte_views(acc@) == xs.take(
            byte_views(acc@).len() as int,
        ) && s@.skip(k as int) == enc_str(xs[byte_views(acc@).len() as int]) + (enc_strs_rest(
            xs.skip(byte_views(acc@).len() as int + 1),
        ) + (seq![93u8] + s@.skip(i + enc_str_array(xs).len()))) by {
            if xs.len() == 0 {
                assert(s@.skip(i as int + 1)[0] == 93);
                assert(false);
            }
            assert(byte_views(acc@) =~= xs.take(0));
            assert(xs.skip(0int + 1) =~= xs.skip(1));
        }
    }
    loop
        invariant
            i < k <= s@.len(),
            s@[i as int] == 91,
            byte_views(acc@).len() == acc@.len(),
            acc@.len() == 0 ==> k == i + 1,
            acc@.len() > 0 ==> s@.subrange(i as int + 1, k as int) == enc_strs(byte_views(acc@))
                + seq![44u8],
            forall|xs: Seq<Seq<u8>>| #[trigger] starts_with(s@.skip(i as int), enc_str_array(xs))
                ==> acc@.len() < xs.len() && byte_views(acc@) == xs.take(acc@.len() as int) && s@
                .skip(k as int) == enc_str(xs[acc@.len() as int]) + (enc_strs_rest(
                xs.skip(acc@.len() as int + 1),
            ) + (seq![93u8] + s@.skip(i + enc_str_array(xs).len()))),
        decreases s@.len() - k,
    {
        let rs = parse_string(s, k);
        match rs {
            None => {
                proof {
                    assert forall|xs: Seq<Seq<u8>>| !(#[trigger] starts_with(
                        s@.skip(i as int),
                        enc_str_array(xs),
                    )) by {
                        if starts_with(s@.skip(i as int), enc_str_array(xs)) {
                            lemma_prefix_from_concat(
                                s@,
                                k as int,
                                enc_str(xs[acc@.len() as int]),
                                enc_strs_rest(xs.skip(acc@.len() as int + 1)) + (seq![93u8]
                                    + s@.skip(i + enc_str_array(xs).len())),
                            );
                        }
                    }
                }
                return None;
            },
            Some((v, k2)) => {
                let ghost oldacc = acc@;
                proof {
                    assert forall|xs: Seq<Seq<u8>>| #[trigger] starts_with(
                        s@.skip(i as int),
                        enc_str_array(xs),
                    ) implies v@ == xs[oldacc.len() as int] && k2 == k + enc_str(
                        xs[oldacc.len() as int],
                    ).len() && s@.skip(k2 as int) == enc_strs_rest(xs.skip(oldacc.len() as int + 1))
                        + (seq![93u8] + s@.skip(i + enc_str_array(xs).len())) by {
                        lemma_prefix_from_concat(
                            s@,
                            k as int,
                            enc_str(xs[oldacc.len() as int]),
                            enc_strs_rest(xs.skip(oldacc.len() as int + 1)) + (seq![93u8] + s@.skip(
                                i + enc_str_array(xs).len(),
                            )),
                        );
                    }
                }
                acc.push(v);
                proof {
                    assert(byte_views(acc@) =~= byte_views(oldacc).push(v@));
                }
                if k2 >= s.len() {
                    proof {
                        assert forall|xs: Seq<Seq<u8>>| !(#[trigger] starts_with(
                            s@.skip(i as int),
                            enc_str_array(xs),
                        )) by {
                            if starts_with(s@.skip(i as int), enc_str_array(xs)) {
                                assert(s@.skip(k2 as int).len() >= 1);
                            }
                        }
                    }
                    return None;
                }
                let c2 = s[k2];
                if c2 == 44 {
                    proof {
                        assert forall|xs: Seq<Seq<u8>>| #[trigger] starts_with(
                            s@.skip(i as int),
                            enc_str_array(xs),
                        ) implies acc@.len() < xs.len() && byte_views(acc@) == xs.take(
                            acc@.len() as int,
                        ) && s@.skip(k2 as int + 1) == enc_str(xs[acc@.len() as int]) + (
                        enc_strs_rest(xs.skip(acc@.len() as int + 1)) + (seq![93u8] + s@.skip(
                            i + enc_str_array(xs).len(),
                        ))) by {
                            let l = oldacc.len() as int;
                            let rr = s@.skip(i + enc_str_array(xs).len());
                            if xs.len() == l + 1 {
                                assert(xs.skip(l + 1).len() == 0);
                                assert(s@.skip(k2 as int) == seq![93u8] + rr);
                                assert(s@.skip(k2 as int)[0] == 93);
                                assert(false);
                            }
                            assert(xs.skip(l + 1).len() > 0);
                            assert(xs.skip(l + 1)[0] == xs[l + 1]);
                            assert(xs.skip(l + 1).skip(1) =~= xs.skip(l + 2));
                            assert(enc_strs_rest(xs.skip(l + 1)) + (seq![93u8] + rr) =~= seq![44u8]
                                + (enc_str(xs[l + 1]) + (enc_strs_rest(xs.skip(l + 2)) + (seq![93u8]
                                + rr))));
                            lemma_skip_split(
                                s@,
                                k2 as int,
                                seq![44u8],
                                enc_str(xs[l + 1]) + (enc_strs_rest(xs.skip(l + 2)) + (seq![93u8]
                                    + rr)),
                            );
                            assert(byte_views(acc@) =~= xs.take(l + 1)) by {
                                assert(xs.take(l + 1) =~= xs.take(l).push(xs[l]));
                            }
                        }
                        lemma_enc_strs_snoc(byte_views(oldacc), v@);
                        if oldacc.len() == 0 {
                            assert(s@.subrange(i as int + 1, k2 as int + 1) =~= enc_strs(
                                byte_views(acc@),
                            ) + seq![44u8]) by {
                                assert(s@.subrange(k as int, k2 as int) == enc_str(v@));
                                assert(s@.subrange(i as int + 1, k2 as int + 1) =~= s@.subrange(
                                    k as int,
                                    k2 as int,
                                ) + seq![s@[k2 as int]]);
                            }
                        } else {
                            assert(s@.subrange(i as int + 1, k2 as int + 1) =~= enc_strs(
                                byte_views(acc@),
                            ) + seq![44u8]) by {
                                assert(s@.subrange(k as int, k2 as int) == enc_str(v@));
                                assert(s@.subrange(i as int + 1, k2 as int + 1) =~= s@.subrange(
                                    i as int + 1,
                                    k as int,
                                ) + s@.subrange(k as int, k2 as int) + seq![s@[k2 as int]]);
                            }
                        }
                    }
                    k = k2 + 1;
                } else if c2 == 93 {
                    proof {
                        assert forall|xs: Seq<Seq<u8>>| #[trigger] starts_with(
                            s@.skip(i as int),
                            enc_str_array(xs),
                        ) implies byte_views(acc@) == xs && k2 + 1 == i + enc_str_array(
                            xs,
                        ).len() by {
                            let l = oldacc.len() as int;
                            let rr = s@.skip(i + enc_str_array(xs).len());
                            if xs.len() > l + 1 {
                                assert(xs.skip(l + 1).len() > 0);
                                assert(xs.skip(l + 1)[0] == xs[l + 1]);
                                assert((enc_strs_rest(xs.skip(l + 1)) + (seq![93u8] + rr))[0] == 44);
                                assert(s@.skip(k2 as int)[0] == 44);
                                assert(false);
                            }
                            assert(xs.len() == l + 1);
                            assert(xs.skip(l + 1).len() == 0);
                            assert(s@.skip(k2 as int) == seq![93u8] + rr);
                            assert(s@.skip(k2 as int).len() == 1 + rr.len());
                            assert(byte_views(acc@) =~= xs) by {
                                assert(xs.take(l + 1) =~= xs.take(l).push(xs[l]));
                                assert(xs.take(l + 1) =~= xs);
                            }
                        }
                        lemma_enc_strs_snoc(byte_views(oldacc), v@);
                        if oldacc.len() == 0 {
                            assert(s@.subrange(i as int, k2 as int + 1) =~= enc_str_array(
                                byte_views(acc@),
                            )) by {
                                assert(s@.subrange(k as int, k2 as int) == enc_str(v@));
                                assert(s@.subrange(i as int, k2 as int + 1) =~= seq![s@[i as int]]
                                    + s@.subrange(k as int, k2 as int) + seq![s@[k2 as int]]);
                            }
                        } else {
                            assert(s@.subrange(i as int, k2 as int + 1) =~= enc_str_array(
                                byte_views(acc@),
                            )) by {
                                assert(s@.subrange(k as int, k2 as int) == enc_str(v@));
                                assert(s@.subrange(i as int, k2 as int + 1) =~= seq![s@[i as int]]
                                    + s@.subrange(i as int + 1, k as int) + s@.subrange(
                                    k as int,
                                    k2 as int,
                                ) + seq![s@[k2 as int]]);
                            }
                        }
                    }
                    return Some((acc, k2 + 1));
                } else {
                    proof {
                        assert forall|xs: Seq<Seq<u8>>| !(#[trigger] starts_with(
                            s@.skip(i as int),
                            enc_str_array(xs),
                        )) by {
                            if starts_with(s@.skip(i as int), enc_str_array(xs)) {
                                let l = oldacc.len() as int;
                                let rr = s@.skip(i + enc_str_array(xs).len());
                                if xs.len() > l + 1 {
                                    assert(xs.skip(l + 1).len() > 0);
                                    assert(xs.skip(l + 1)[0] == xs[l + 1]);
                                    assert((enc_strs_rest(xs.skip(l + 1)) + (seq![93u8] + rr))[0]
                                        == 44);
                                    assert(s@.skip(k2 as int)[0] == 44);
                                } else {
                                    assert(xs.skip(l + 1).len() == 0);
                                    assert(s@.skip(k2 as int) == seq![93u8] + rr);
                                    assert(s@.skip(k2 as int)[0] == 93);
                                }
                            }
                        }
                    }
                    return None;
                }
            },
        }
    }
}

/// The encoding of the fields of a dependency from token 1 on.
pub open spec fn dtail1(d: DepModel) -> Seq<u8> {
    enc_str(d.name) + dtail2(d)
}

/// The encoding of the fields of a dependency from token 2 on.
pub open spec fn dtail2(d: DepModel) -> Seq<u8> {
    lit_version_requirement() + dtail3(d)
}

/// The encoding of the fields of a dependency from token 3 on.
pub open spec fn dtail3(d: DepModel) -> Seq<u8> {
    enc_str(d.version_requirement) + dtail4(d)
}

/// The encoding of the fields of a dependency from token 4 on.
pub open spec fn dtail4(d: DepModel) -> Seq<u8> {
    lit_dep_features() + dtail5(d)
}

/// The encoding of the fields of a dependency from token 5 on.
pub open spec fn dtail5(d: DepModel) -> Seq<u8> {
    enc_str_array(d.features) + dtail6(d)
}

/// The encoding of the fields of a dependency from token 6 on.
pub open spec fn dtail6(d: DepModel) -> Seq<u8> {
    lit_optional() + dtail7(d)
}

/// The encoding of the fields of a dependency from token 7 on.
pub open spec fn dtail7(d: DepModel) -> Seq<u8> {
    enc_bool(d.optional) + dtail8(d)
}

/// The encoding of the fields of a dependency from token 8 on.
pub open spec fn dtail8(d: DepModel) -> Seq<u8> {
    lit_use_default_features() + dtail9(d)
}

/// The encoding of the fields of a dependency from token 9 on.
pub open spec fn dtail9(d: DepModel) -> Seq<u8> {
    enc_bool(d.use_default_features) + dtail10(d)
}

/// The encoding of the fields of a dependency from token 10 on.
pub open spec fn dtail10(d: DepModel) -> Seq<u8> {
    lit_target() + dtail11(d)
}

/// The encoding of the fields of a dependency from token 11 on.
pub open spec fn dtail11(d: DepModel) -> Seq<u8> {
    enc_opt_str(d.target) + dtail12(d)
}

/// The encoding of the fields of a dependency from token 12 on.
pub open spec fn dtail12(d: DepModel) -> Seq<u8> {
    lit_kind() + dtail13(d)
}

/// The encoding of the fields of a dependency from token 13 on.
pub open spec fn dtail13(d: DepModel) -> Seq<u8> {
    enc_str(d.kind) + dtail14(d)
}

/// The encoding of the fields of a dependency from token 14 on.
pub open spec fn dtail14(d: DepModel) -> Seq<u8> {
    lit_close()
}

/// The whole encoding splits as its first token plus the first tail.
#[verifier::rlimit(100)]
pub proof fn lemma_enc_dep_tails(d: DepModel)
    ensures
        enc_dep(d) == lit_obj_name() + dtail1(d),
        enc_dep(d)[0] == 123,
{
    reveal(enc_dep);
    assert(enc_dep(d) == lit_obj_name() + enc_str(d.name) + lit_version_requirement() + enc_str(d.version_requirement) + lit_dep_features() + enc_str_array(d.features) + lit_optional() + enc_bool(d.optional) + lit_use_default_features() + enc_bool(d.use_default_features) + lit_target() + enc_opt_str(d.target) + lit_kind() + enc_str(d.kind) + dtail14(d));
    lemma_add_assoc(lit_obj_name() + enc_str(d.name) + lit_version_requirement() + enc_str(d.version_requirement) + lit_dep_features() + enc_str_array(d.features) + lit_optional() + enc_bool(d.optional) + lit_use_default_features() + enc_bool(d.use_default_features) + lit_target() + enc_opt_str(d.target) + lit_kind(), enc_str(d.kind), dtail14(d));
    assert(enc_dep(d) == lit_obj_name() + enc_str(d.name) + lit_version_requirement() + enc_str(d.version_requirement) + lit_dep_features() + enc_str_array(d.features) + lit_optional() + enc_bool(d.optional) + lit_use_default_features() + enc_bool(d.use_default_features) + lit_target() + enc_opt_str(d.target) + lit_kind() + dtail13(d));
    lemma_add_assoc(lit_obj_name() + enc_str(d.name) + lit_version_requirement() + enc_str(d.version_requirement) + lit_dep_features() + enc_str_array(d.features) + lit_optional() + enc_bool(d.optional) + lit_use_default_features() + enc_bool(d.use_default_features) + lit_target() + enc_opt_str(d.target), lit_kind(), dtail13(d));
    assert(enc_dep(d) == lit_obj_name() + enc_str(d.name) + lit_version_requirement() + enc_str(d.version_requirement) + lit_dep_features() + enc_str_array(d.features) + lit_optional() + enc_bool(d.optional) + lit_use_default_features() + enc_bool(d.use_default_features) + lit_target() + enc_opt_str(d.target) + dtail12(d));
    lemma_add_assoc(lit_obj_name() + enc_str(d.name) + lit_version_requirement() + enc_str(d.version_requirement) + lit_dep_features() + enc_str_array(d.features) + lit_optional() + enc_bool(d.optional) + lit_use_default_features() + enc_bool(d.use_default_features) + lit_target(), enc_opt_str(d.target), dtail12(d));
    assert(enc_dep(d) == lit_obj_name() + enc_str(d.name) + lit_version_requirement() + enc_str(d.version_requirement) + lit_dep_features() + enc_str_array(d.features) + lit_optional() + enc_bool(d.optional) + lit_use_default_features() + enc_bool(d.use_default_features) + lit_target() + dtail11(d));
    lemma_add_assoc(lit_obj_name() + enc_str(d.name) + lit_version_requirement() + enc_str(d.version_requirement) + lit_dep_features() + enc_str_array(d.features) + lit_optional() + enc_bool(d.optional) + lit_use_default_features() + enc_bool(d.use_default_features), lit_target(), dtail11(d));
    assert(enc_dep(d) == lit_obj_name() + enc_str(d.name) + lit_version_requirement() + enc_str(d.version_requirement) + lit_dep_features() + enc_str_array(d.features) + lit_optional() + enc_bool(d.optional) + lit_use_default_features() + enc_bool(d.use_default_features) + dtail10(d));
    lemma_add_assoc(lit_obj_name() + enc_str(d.name) + lit_version_requirement() + enc_str(d.version_requirement) + lit_dep_features() + enc_str_array(d.features) + lit_optional() + enc_bool(d.optional) + lit_use_default_features(), enc_bool(d.use_default_features), dtail10(d));
    assert(enc_dep(d) == lit_obj_name() + enc_str(d.name) + lit_version_requirement() + enc_str(d.version_requirement) + lit_dep_features() + enc_str_array(d.features) + lit_optional() + enc_bool(d.optional) + lit_use_default_features() + dtail9(d));
    lemma_add_assoc(lit_obj_name() + enc_str(d.name) + lit_version_requirement() + enc_str(d.version_requirement) + lit_dep_features() + enc_str_array(d.features) + lit_optional() + enc_bool(d.optional), lit_use_default_features(), dtail9(d));
    assert(enc_dep(d) == lit_obj_name() + enc_str(d.name) + lit_version_requirement() + enc_str(d.version_requirement) + lit_dep_features() + enc_str_array(d.features) + lit_optional() + enc_bool(d.optional) + dtail8(d));
    lemma_add_assoc(lit_obj_name() + enc_str(d.name) + lit_version_requirement() + enc_str(d.version_requirement) + lit_dep_features() + enc_str_array(d.features) + lit_optional(), enc_bool(d.optional), dtail8(d));
    assert(enc_dep(d) == lit_obj_name() + enc_str(d.name) + lit_version_requirement() + enc_str(d.version_requirement) + lit_dep_features() + enc_str_array(d.features) + lit_optional() + dtail7(d));
    lemma_add_assoc(lit_obj_name() + enc_str(d.name) + lit_version_requirement() + enc_str(d.version_requirement) + lit_dep_features() + enc_str_array(d.features), lit_optional(), dtail7(d));
    assert(enc_dep(d) == lit_obj_name() + enc_str(d.name) + lit_version_requirement() + enc_str(d.version_requirement) + lit_dep_features() + enc_str_array(d.features) + dtail6(d));
    lemma_add_assoc(lit_obj_name() + enc_str(d.name) + lit_version_requirement() + enc_str(d.version_requirement) + lit_dep_features(), enc_str_array(d.features), dtail6(d));
    assert(enc_dep(d) == lit_obj_name() + enc_str(d.name) + lit_version_requirement() + enc_str(d.version_requirement) + lit_dep_features() + dtail5(d));
    lemma_add_assoc(lit_obj_name() + enc_str(d.name) + lit_version_requirement() + enc_str(d.version_requirement), lit_dep_features(), dtail5(d));
    assert(enc_dep(d) == lit_obj_name() + enc_str(d.name) + lit_version_requirement() + enc_str(d.version_requirement) + dtail4(d));
    lemma_add_assoc(lit_obj_name() + enc_str(d.name) + lit_version_requirement(), enc_str(d.version_requirement), dtail4(d));
    assert(enc_dep(d) == lit_obj_name() + enc_str(d.name) + lit_version_requirement() + dtail3(d));
    lemma_add_assoc(lit_obj_name() + enc_str(d.name), lit_version_requirement(), dtail3(d));
    assert(enc_dep(d) == lit_obj_name() + enc_str(d.name) + dtail2(d));
    lemma_add_assoc(lit_obj_name(), enc_str(d.name), dtail2(d));
    assert(enc_dep(d) == lit_obj_name() + dtail1(d));
}

/// The encoding of the fields of a record from token 1 on.
pub open spec fn rtail1(m: RecordModel) -> Seq<u8> {
    enc_str(m.name) + rtail2(m)
}

/// The encoding of the fields of a record from token 2 on.
pub open spec fn rtail2(m: RecordModel) -> Seq<u8> {
    lit_version() + rtail3(m)
}

/// The encoding of the fields of a record from token 3 on.
pub open spec fn rtail3(m: RecordModel) -> Seq<u8> {
    enc_str(m.version) + rtail4(m)
}

/// The encoding of the fields of a record from token 4 on.
pub open spec fn rtail4(m: RecordModel) -> Seq<u8> {
    lit_dependencies() + rtail5(m)
}

/// The encoding of the fields of a record from token 5 on.
pub open spec fn rtail5(m: RecordModel) -> Seq<u8> {
    enc_deps(m.dependencies) + rtail6(m)
}

/// The encoding of the fields of a record from token 6 on.
pub open spec fn rtail6(m: RecordModel) -> Seq<u8> {
    lit_checksum() + rtail7(m)
}

/// The encoding of the fields of a record from token 7 on.
pub open spec fn rtail7(m: RecordModel) -> Seq<u8> {
    enc_str(m.checksum) + rtail8(m)
}

/// The encoding of the fields of a record from token 8 on.
pub open spec fn rtail8(m: RecordModel) -> Seq<u8> {
    lit_features() + rtail9(m)
}

/// The encoding of the fields of a record from token 9 on.
pub open spec fn rtail9(m: RecordModel) -> Seq<u8> {
    enc_feats(m.features) + rtail10(m)
}

/// The encoding of the fields of a record from token 10 on.
pub open spec fn rtail10(m: RecordModel) -> Seq<u8> {
    lit_yanked() + rtail11(m)
}

/// The encoding of the fields of a record from token 11 on.
pub open spec fn rtail11(m: RecordModel) -> Seq<u8> {
    enc_bool(m.yanked) + rtail12(m)
}

/// The encoding of the fields of a record from token 12 on.
pub open spec fn rtail12(m: RecordModel) -> Seq<u8> {
    lit_close()
}

/// The whole encoding splits as its first token plus the first tail.
#[verifier::rlimit(100)]
pub proof fn lemma_enc_record_tails(m: RecordModel)
    ensures
        enc_record(m) == lit_obj_name() + rtail1(m),
        enc_record(m)[0] == 123,
{
    reveal(enc_record);
    assert(enc_record(m) == lit_obj_name() + enc_str(m.name) + lit_version() + enc_str(m.version) + lit_dependencies() + enc_deps(m.dependencies) + lit_checksum() + enc_str(m.checksum) + lit_features() + enc_feats(m.features) + lit_yanked() + enc_bool(m.yanked) + rtail12(m));
    lemma_add_assoc(lit_obj_name() + enc_str(m.name) + lit_version() + enc_str(m.version) + lit_dependencies() + enc_deps(m.dependencies) + lit_checksum() + enc_str(m.checksum) + lit_features() + enc_feats(m.features) + lit_yanked(), enc_bool(m.yanked), rtail12(m));
    assert(enc_record(m) == lit_obj_name() + enc_str(m.name) + lit_version() + enc_str(m.version) + lit_dependencies() + enc_deps(m.dependencies) + lit_checksum() + enc_str(m.checksum) + lit_features() + enc_feats(m.features) + lit_yanked() + rtail11(m));
    lemma_add_assoc(lit_obj_name() + enc_str(m.name) + lit_version() + enc_str(m.version) + lit_dependencies() + enc_deps(m.dependencies) + lit_checksum() + enc_str(m.checksum) + lit_features() + enc_feats(m.features), lit_yanked(), rtail11(m));
    assert(enc_record(m) == lit_obj_name() + enc_str(m.name) + lit_version() + enc_str(m.version) + lit_dependencies() + enc_deps(m.dependencies) + lit_checksum() + enc_str(m.checksum) + lit_features() + enc_feats(m.features) + rtail10(m));
    lemma_add_assoc(lit_obj_name() + enc_str(m.name) + lit_version() + enc_str(m.version) + lit_dependencies() + enc_deps(m.dependencies) + lit_checksum() + enc_str(m.checksum) + lit_features(), enc_feats(m.features), rtail10(m));
    assert(enc_record(m) == lit_obj_name() + enc_str(m.name) + lit_version() + enc_str(m.version) + lit_dependencies() + enc_deps(m.dependencies) + lit_checksum() + enc_str(m.checksum) + lit_features() + rtail9(m));
    lemma_add_assoc(lit_obj_name() + enc_str(m.name) + lit_version() + enc_str(m.version) + lit_dependencies() + enc_deps(m.dependencies) + lit_checksum() + enc_str(m.checksum), lit_features(), rtail9(m));
    assert(enc_record(m) == lit_obj_name() + enc_str(m.name) + lit_version() + enc_str(m.version) + lit_dependencies() + enc_deps(m.dependencies) + lit_checksum() + enc_str(m.checksum) + rtail8(m));
    lemma_add_assoc(lit_obj_name() + enc_str(m.name) + lit_version() + enc_str(m.version) + lit_dependencies() + enc_deps(m.dependencies) + lit_checksum(), enc_str(m.checksum), rtail8(m));
    assert(enc_record(m) == lit_obj_name() + enc_str(m.name) + lit_version() + enc_str(m.version) + lit_dependencies() + enc_deps(m.dependencies) + lit_checksum() + rtail7(m));
    lemma_add_assoc(lit_obj_name() + enc_str(m.name) + lit_version() + enc_str(m.version) + lit_dependencies() + enc_deps(m.dependencies), lit_checksum(), rtail7(m));
    assert(enc_record(m) == lit_obj_name() + enc_str(m.name) + lit_version() + enc_str(m.version) + lit_dependencies() + enc_deps(m.dependencies) + rtail6(m));
    lemma_add_assoc(lit_obj_name() + enc_str(m.name) + lit_version() + enc_str(m.version) + lit_dependencies(), enc_deps(m.dependencies), rtail6(m));
    assert(enc_record(m) == lit_obj_name() + enc_str(m.name) + lit_version() + enc_str(m.version) + lit_dependencies() + rtail5(m));
    lemma_add_assoc(lit_obj_name() + enc_str(m.name) + lit_version() + enc_str(m.version), lit_dependencies(), rtail5(m));
    assert(enc_record(m) == lit_obj_name() + enc_str(m.name) + lit_version() + enc_str(m.version) + rtail4(m));
    lemma_add_assoc(lit_obj_name() + enc_str(m.name) + lit_version(), enc_str(m.version), rtail4(m));
    assert(enc_record(m) == lit_obj_name() + enc_str(m.name) + lit_version() + rtail3(m));
    lemma_add_assoc(lit_obj_name() + enc_str(m.name), lit_version(), rtail3(m));
    assert(enc_record(m) == lit_obj_name() + enc_str(m.name) + rtail2(m));
    lemma_add_assoc(lit_obj_name(), enc_str(m.name), rtail2(m));
    assert(enc_record(m) == lit_obj_name() + rtail1(m));
}

/// The later fields of parse_dep, from token 8 on.
#[verifier::rlimit(100)]
#[verifier::spinoff_prover]
fn parse_dep_rest(s: &[u8], i0: usize, jin: usize) -> (r: Option<((bool, Option<Vec<u8>>, Vec<u8>), usize)>)
    requires
        i0 <= s@.len(),
        jin <= s@.len(),
        forall|d: DepModel| #[trigger] starts_with(s@.skip(i0 as int), enc_dep(d)) ==> s@.skip(jin as int) == dtail8(d) + s@.skip(i0 + enc_dep(d).len()),
    ensures
        r matches Some(p) ==> jin < p.1 <= s@.len() && s@.subrange(jin as int, p.1 as int) == lit_use_default_features() + enc_bool(p.0.0) + lit_target() + enc_opt_str(opt_bytes_view(p.0.1)) + lit_kind() + enc_str(p.0.2@) + lit_close(),
        forall|d: DepModel| #[trigger] starts_with(s@.skip(i0 as int), enc_dep(d)) ==> (r matches Some(p) && p.0.0 == d.use_default_features && opt_bytes_view(p.0.1) == d.target && p.0.2@ == d.kind && p.1 == i0 + enc_dep(d).len()),
{
    let lb8 = lit_use_default_features_bytes();
    let r8 = parse_lit(s, jin, &lb8);
    let j9 = match r8 {
        Some(j) => j,
        None => {
            proof {
                assert forall|d: DepModel| !(#[trigger] starts_with(s@.skip(i0 as int), enc_dep(d))) by {
                    if starts_with(s@.skip(i0 as int), enc_dep(d)) {
                        lemma_add_assoc(lit_use_default_features(), dtail9(d), s@.skip(i0 + enc_dep(d).len()));
                        assert(dtail8(d) + s@.skip(i0 + enc_dep(d).len()) == lit_use_default_features() + (dtail9(d) + s@.skip(i0 + enc_dep(d).len())));
                        lemma_prefix_from_concat(s@, jin as int, lit_use_default_features(), dtail9(d) + s@.skip(i0 + enc_dep(d).len()));
                    }
                }
            }
            return None;
        },
    };
    proof {
        assert forall|d: DepModel| #[trigger] starts_with(s@.skip(i0 as int), enc_dep(d)) implies s@.skip(j9 as int) == dtail9(d) + s@.skip(i0 + enc_dep(d).len()) by {
            lemma_add_assoc(lit_use_default_features(), dtail9(d), s@.skip(i0 + enc_dep(d).len()));
            assert(dtail8(d) + s@.skip(i0 + enc_dep(d).len()) == lit_use_default_features() + (dtail9(d) + s@.skip(i0 + enc_dep(d).len())));
            lemma_prefix_from_concat(s@, jin as int, lit_use_default_features(), dtail9(d) + s@.skip(i0 + enc_dep(d).len()));
        }
    }
    let r9 = parse_bool(s, j9);
    let (x9, j10) = match r9 {
        Some(p) => p,
        None => {
            proof {
                assert forall|d: DepModel| !(#[trigger] starts_with(s@.skip(i0 as int), enc_dep(d))) by {
                    if starts_with(s@.skip(i0 as int), enc_dep(d)) {
                        lemma_add_assoc(enc_bool(d.use_default_features), dtail10(d), s@.skip(i0 + enc_dep(d).len()));
                        assert(dtail9(d) + s@.skip(i0 + enc_dep(d).len()) == enc_bool(d.use_default_features) + (dtail10(d) + s@.skip(i0 + enc_dep(d).len())));
                        lemma_prefix_from_concat(s@, j9 as int, enc_bool(d.use_default_features), dtail10(d) + s@.skip(i0 + enc_dep(d).len()));
                    }
                }
            }
            return None;
        },
    };
    proof {
        assert forall|d: DepModel| #[trigger] starts_with(s@.skip(i0 as int), enc_dep(d)) implies x9 == d.use_default_features && s@.skip(j10 as int) == dtail10(d) + s@.skip(i0 + enc_dep(d).len()) && j10 <= s@.len() by {
            lemma_add_assoc(enc_bool(d.use_default_features), dtail10(d), s@.skip(i0 + enc_dep(d).len()));
            assert(dtail9(d) + s@.skip(i0 + enc_dep(d).len()) == enc_bool(d.use_default_features) + (dtail10(d) + s@.skip(i0 + enc_dep(d).len())));
            lemma_prefix_from_concat(s@, j9 as int, enc_bool(d.use_default_features), dtail10(d) + s@.skip(i0 + enc_dep(d).len()));
            lemma_consume(s@, j9 as int, j10 as int, enc_bool(d.use_default_features), dtail10(d) + s@.skip(i0 + enc_dep(d).len()));
        }
    }
    let lb10 = lit_target_bytes();
    let r10 = parse_lit(s, j10, &lb10);
    let j11 = match r10 {
        Some(j) => j,
        None => {
            proof {
                assert forall|d: DepModel| !(#[trigger] starts_with(s@.skip(i0 as int), enc_dep(d))) by {
                    if starts_with(s@.skip(i0 as int), enc_dep(d)) {
                        lemma_add_assoc(lit_target(), dtail11(d), s@.skip(i0 + enc_dep(d).len()));
                        assert(dtail10(d) + s@.skip(i0 + enc_dep(d).len()) == lit_target() + (dtail11(d) + s@.skip(i0 + enc_dep(d).len())));
                        lemma_prefix_from_concat(s@, j10 as int, lit_target(), dtail11(d) + s@.skip(i0 + enc_dep(d).len()));
                    }
                }
            }
            return None;
        },
    };
    proof {
        assert forall|d: DepModel| #[trigger] starts_with(s@.skip(i0 as int), enc_dep(d)) implies s@.skip(j11 as int) == dtail11(d) + s@.skip(i0 + enc_dep(d).len()) by {
            lemma_add_assoc(lit_target(), dtail11(d), s@.skip(i0 + enc_dep(d).len()));
            assert(dtail10(d) + s@.skip(i0 + enc_dep(d).len()) == lit_target() + (dtail11(d) + s@.skip(i0 + enc_dep(d).len())));
            lemma_prefix_from_concat(s@, j10 as int, lit_target(), dtail11(d) + s@.skip(i0 + enc_dep(d).len()));
        }
    }
    let r11 = parse_opt_str(s, j11);
    let (x11, j12) = match r11 {
        Some(p) => p,
        None => {
            proof {
                assert forall|d: DepModel| !(#[trigger] starts_with(s@.skip(i0 as int), enc_dep(d))) by {
                    if starts_with(s@.skip(i0 as int), enc_dep(d)) {
                        lemma_add_assoc(enc_opt_str(d.target), dtail12(d), s@.skip(i0 + enc_dep(d).len()));
                        assert(dtail11(d) + s@.skip(i0 + enc_dep(d).len()) == enc_opt_str(d.target) + (dtail12(d) + s@.skip(i0 + enc_dep(d).len())));
                        lemma_prefix_from_concat(s@, j11 as int, enc_opt_str(d.target), dtail12(d) + s@.skip(i0 + enc_dep(d).len()));
                    }
                }
            }
            return None;
        },
    };
    proof {
        assert forall|d: DepModel| #[trigger] starts_with(s@.skip(i0 as int), enc_dep(d)) implies opt_bytes_view(x11) == d.target && s@.skip(j12 as int) == dtail12(d) + s@.skip(i0 + enc_dep(d).len()) && j12 <= s@.len() by {
            lemma_add_assoc(enc_opt_str(d.target), dtail12(d), s@.skip(i0 + enc_dep(d).len()));
            assert(dtail11(d) + s@.skip(i0 + enc_dep(d).len()) == enc_opt_str(d.target) + (dtail12(d) + s@.skip(i0 + enc_dep(d).len())));
            lemma_prefix_from_concat(s@, j11 as int, enc_opt_str(d.target), dtail12(d) + s@.skip(i0 + enc_dep(d).len()));
            lemma_consume(s@, j11 as int, j12 as int, enc_opt_str(d.target), dtail12(d) + s@.skip(i0 + enc_dep(d).len()));
        }
    }
    let lb12 = lit_kind_bytes();
    let r12 = parse_lit(s, j12, &lb12);
    let j13 = match r12 {
        Some(j) => j,
        None => {
            proof {
                assert forall|d: DepModel| !(#[trigger] starts_with(s@.skip(i0 as int), enc_dep(d))) by {
                    if starts_with(s@.skip(i0 as int), enc_dep(d)) {
                        lemma_add_assoc(lit_kind(), dtail13(d), s@.skip(i0 + enc_dep(d).len()));
                        assert(dtail12(d) + s@.skip(i0 + enc_dep(d).len()) == lit_kind() + (dtail13(d) + s@.skip(i0 + enc_dep(d).len())));
                        lemma_prefix_from_concat(s@, j12 as int, lit_kind(), dtail13(d) + s@.skip(i0 + enc_dep(d).len()));
                    }
                }
            }
            return None;
        },
    };
    proof {
        assert forall|d: DepModel| #[trigger] starts_with(s@.skip(i0 as int), enc_dep(d)) implies s@.skip(j13 as int) == dtail13(d) + s@.skip(i0 + enc_dep(d).len()) by {
            lemma_add_assoc(lit_kind(), dtail13(d), s@.skip(i0 + enc_dep(d).len()));
            assert(dtail12(d) + s@.skip(i0 + enc_dep(d).len()) == lit_kind() + (dtail13(d) + s@.skip(i0 + enc_dep(d).len())));
            lemma_prefix_from_concat(s@, j12 as int, lit_kind(), dtail13(d) + s@.skip(i0 + enc_dep(d).len()));
        }
    }
    let r13 = parse_string(s, j13);
    let (x13, j14) = match r13 {
        Some(p) => p,
        None => {
            proof {
                assert forall|d: DepModel| !(#[trigger] starts_with(s@.skip(i0 as int), enc_dep(d))) by {
                    if starts_with(s@.skip(i0 as int), enc_dep(d)) {
                        lemma_add_assoc(enc_str(d.kind), dtail14(d), s@.skip(i0 + enc_dep(d).len()));
                        assert(dtail13(d) + s@.skip(i0 + enc_dep(d).len()) == enc_str(d.kind) + (dtail14(d) + s@.skip(i0 + enc_dep(d).len())));
                        lemma_prefix_from_concat(s@, j13 as int, enc_str(d.kind), dtail14(d) + s@.skip(i0 + enc_dep(d).len()));
                    }
                }
            }
            return None;
        },
    };
    proof {
        assert forall|d: DepModel| #[trigger] starts_with(s@.skip(i0 as int), enc_dep(d)) implies x13@ == d.kind && s@.skip(j14 as int) == dtail14(d) + s@.skip(i0 + enc_dep(d).len()) && j14 <= s@.len() by {
            lemma_add_assoc(enc_str(d.kind), dtail14(d), s@.skip(i0 + enc_dep(d).len()));
            assert(dtail13(d) + s@.skip(i0 + enc_dep(d).len()) == enc_str(d.kind) + (dtail14(d) + s@.skip(i0 + enc_dep(d).len())));
            lemma_prefix_from_concat(s@, j13 as int, enc_str(d.kind), dtail14(d) + s@.skip(i0 + enc_dep(d).len()));
            lemma_consume(s@, j13 as int, j14 as int, enc_str(d.kind), dtail14(d) + s@.skip(i0 + enc_dep(d).len()));
        }
    }
    let lb14 = lit_close_bytes();
    let r14 = parse_lit(s, j14, &lb14);
    let j15 = match r14 {
        Some(j) => j,
        None => {
            proof {
                assert forall|d: DepModel| !(#[trigger] starts_with(s@.skip(i0 as int), enc_dep(d))) by {
                    if starts_with(s@.skip(i0 as int), enc_dep(d)) {
                        assert(dtail14(d) + s@.skip(i0 + enc_dep(d).len()) == lit_close() + (s@.skip(i0 + enc_dep(d).len())));
                        lemma_prefix_from_concat(s@, j14 as int, lit_close(), s@.skip(i0 + enc_dep(d).len()));
                    }
                }
            }
            return None;
        },
    };
    proof {
        assert forall|d: DepModel| #[trigger] starts_with(s@.skip(i0 as int), enc_dep(d)) implies s@.skip(j15 as int) == s@.skip(i0 + enc_dep(d).len()) by {
            assert(dtail14(d) + s@.skip(i0 + enc_dep(d).len()) == lit_close() + (s@.skip(i0 + enc_dep(d).len())));
            lemma_prefix_from_concat(s@, j14 as int, lit_close(), s@.skip(i0 + enc_dep(d).len()));
        }
    }
    proof {
            lemma_subrange_concat(s@, jin as int, jin as int, j9 as int);
            lemma_subrange_concat(s@, jin as int, j9 as int, j10 as int);
            lemma_subrange_concat(s@, jin as int, j10 as int, j11 as int);
            lemma_subrange_concat(s@, jin as int, j11 as int, j12 as int);
            lemma_subrange_concat(s@, jin as int, j12 as int, j13 as int);
            lemma_subrange_concat(s@, jin as int, j13 as int, j14 as int);
            lemma_subrange_concat(s@, jin as int, j14 as int, j15 as int);
        assert(s@.subrange(jin as int, j15 as int) =~= lit_use_default_features() + enc_bool(x9) + lit_target() + enc_opt_str(opt_bytes_view(x11)) + lit_kind() + enc_str(x13@) + lit_close());
        assert forall|d: DepModel| #[trigger] starts_with(s@.skip(i0 as int), enc_dep(d)) implies j15 == i0 + enc_dep(d).len() by {
            lemma_concat_from_prefix(s@, i0 as int, enc_dep(d));
            assert(s@.skip(j15 as int).len() == s@.skip(i0 + enc_dep(d).len()).len());
        }
    }
    Some(((x9, x11, x13), j15))
}

/// Parse one dependency object at `i`.
#[verifier::rlimit(100)]
#[verifier::spinoff_prover]
fn parse_dep(s: &[u8], i: usize) -> (r: Option<(DependencySpec, usize)>)
    requires
        i <= s@.len(),
    ensures
        r matches Some(p) ==> i < p.1 <= s@.len() && s@.subrange(i as int, p.1 as int) == enc_dep(p.0@),
        forall|d: DepModel| #[trigger] starts_with(s@.skip(i as int), enc_dep(d)) ==> (r matches Some(p) && p.0@ == d && p.1 == i + enc_dep(d).len()),
{
    proof {
        assert forall|d: DepModel| #[trigger] starts_with(s@.skip(i as int), enc_dep(d)) implies s@.skip(i as int) == lit_obj_name() + (dtail1(d) + s@.skip(i + enc_dep(d).len())) by {
            lemma_concat_from_prefix(s@, i as int, enc_dep(d));
            lemma_enc_dep_tails(d);
            lemma_add_assoc(lit_obj_name(), dtail1(d), s@.skip(i + enc_dep(d).len()));
        }
    }
    let lb0 = lit_obj_name_bytes();
    let r0 = parse_lit(s, i, &lb0);
    let j1 = match r0 {
        Some(j) => j,
        None => {
            proof {
                assert forall|d: DepModel| !(#[trigger] starts_with(s@.skip(i as int), enc_dep(d))) by {
                    if starts_with(s@.skip(i as int), enc_dep(d)) {
                        lemma_add_assoc(lit_obj_name(), dtail1(d), s@.skip(i + enc_dep(d).len()));
                        lemma_prefix_from_concat(s@, i as int, lit_obj_name(), dtail1(d) + s@.skip(i + enc_dep(d).len()));
                    }
                }
            }
            return None;
        },
    };
    proof {
        assert forall|d: DepModel| #[trigger] starts_with(s@.skip(i as int), enc_dep(d)) implies s@.skip(j1 as int) == dtail1(d) + s@.skip(i + enc_dep(d).len()) by {
            lemma_add_assoc(lit_obj_name(), dtail1(d), s@.skip(i + enc_dep(d).len()));
            lemma_prefix_from_concat(s@, i as int, lit_obj_name(), dtail1(d) + s@.skip(i + enc_dep(d).len()));
        }
    }
    let r1 = parse_string(s, j1);
    let (x1, j2) = match r1 {
        Some(p) => p,
        None => {
            proof {
                assert forall|d: DepModel| !(#[trigger] starts_with(s@.skip(i as int), enc_dep(d))) by {
                    if starts_with(s@.skip(i as int), enc_dep(d)) {
                        lemma_add_assoc(enc_str(d.name), dtail2(d), s@.skip(i + enc_dep(d).len()));
                        assert(dtail1(d) + s@.skip(i + enc_dep(d).len()) == enc_str(d.name) + (dtail2(d) + s@.skip(i + enc_dep(d).len())));
                        lemma_prefix_from_concat(s@, j1 as int, enc_str(d.name), dtail2(d) + s@.skip(i + enc_dep(d).len()));
                    }
                }
            }
            return None;
        },
    };
    proof {
        assert forall|d: DepModel| #[trigger] starts_with(s@.skip(i as int), enc_dep(d)) implies x1@ == d.name && s@.skip(j2 as int) == dtail2(d) + s@.skip(i + enc_dep(d).len()) && j2 <= s@.len() by {
            lemma_add_assoc(enc_str(d.name), dtail2(d), s@.skip(i + enc_dep(d).len()));
            assert(dtail1(d) + s@.skip(i + enc_dep(d).len()) == enc_str(d.name) + (dtail2(d) + s@.skip(i + enc_dep(d).len())));
            lemma_prefix_from_concat(s@, j1 as int, enc_str(d.name), dtail2(d) + s@.skip(i + enc_dep(d).len()));
            lemma_consume(s@, j1 as int, j2 as int, enc_str(d.name), dtail2(d) + s@.skip(i + enc_dep(d).len()));
        }
    }
    let lb2 = lit_version_requirement_bytes();
    let r2 = parse_lit(s, j2, &lb2);
    let j3 = match r2 {
        Some(j) => j,
        None => {
            proof {
                assert forall|d: DepModel| !(#[trigger] starts_with(s@.skip(i as int), enc_dep(d))) by {
                    if starts_with(s@.skip(i as int), enc_dep(d)) {
                        lemma_add_assoc(lit_version_requirement(), dtail3(d), s@.skip(i + enc_dep(d).len()));
                        assert(dtail2(d) + s@.skip(i + enc_dep(d).len()) == lit_version_requirement() + (dtail3(d) + s@.skip(i + enc_dep(d).len())));
                        lemma_prefix_from_concat(s@, j2 as int, lit_version_requirement(), dtail3(d) + s@.skip(i + enc_dep(d).len()));
                    }
                }
            }
            return None;
        },
    };
    proof {
        assert forall|d: DepModel| #[trigger] starts_with(s@.skip(i as int), enc_dep(d)) implies s@.skip(j3 as int) == dtail3(d) + s@.skip(i + enc_dep(d).len()) by {
            lemma_add_assoc(lit_version_requirement(), dtail3(d), s@.skip(i + enc_dep(d).len()));
            assert(dtail2(d) + s@.skip(i + enc_dep(d).len()) == lit_version_requirement() + (dtail3(d) + s@.skip(i + enc_dep(d).len())));
            lemma_prefix_from_concat(s@, j2 as int, lit_version_requirement(), dtail3(d) + s@.skip(i + enc_dep(d).len()));
        }
    }
    let r3 = parse_string(s, j3);
    let (x3, j4) = match r3 {
        Some(p) => p,
        None => {
            proof {
                assert forall|d: DepModel| !(#[trigger] starts_with(s@.skip(i as int), enc_dep(d))) by {
                    if starts_with(s@.skip(i as int), enc_dep(d)) {
                        lemma_add_assoc(enc_str(d.version_requirement), dtail4(d), s@.skip(i + enc_dep(d).len()));
                        assert(dtail3(d) + s@.skip(i + enc_dep(d).len()) == enc_str(d.version_requirement) + (dtail4(d) + s@.skip(i + enc_dep(d).len())));
                        lemma_prefix_from_concat(s@, j3 as int, enc_str(d.version_requirement), dtail4(d) + s@.skip(i + enc_dep(d).len()));
                    }
                }
            }
            return None;
        },
    };
    proof {
        assert forall|d: DepModel| #[trigger] starts_with(s@.skip(i as int), enc_dep(d)) implies x3@ == d.version_requirement && s@.skip(j4 as int) == dtail4(d) + s@.skip(i + enc_dep(d).len()) && j4 <= s@.len() by {
            lemma_add_assoc(enc_str(d.version_requirement), dtail4(d), s@.skip(i + enc_dep(d).len()));
            assert(dtail3(d) + s@.skip(i + enc_dep(d).len()) == enc_str(d.version_requirement) + (dtail4(d) + s@.skip(i + enc_dep(d).len())));
            lemma_prefix_from_concat(s@, j3 as int, enc_str(d.version_requirement), dtail4(d) + s@.skip(i + enc_dep(d).len()));
            lemma_consume(s@, j3 as int, j4 as int, enc_str(d.version_requirement), dtail4(d) + s@.skip(i + enc_dep(d).len()));
        }
    }
    let lb4 = lit_dep_features_bytes();
    let r4 = parse_lit(s, j4, &lb4);
    let j5 = match r4 {
        Some(j) => j,
        None => {
            proof {
                assert forall|d: DepModel| !(#[trigger] starts_with(s@.skip(i as int), enc_dep(d))) by {
                    if starts_with(s@.skip(i as int), enc_dep(d)) {
                        lemma_add_assoc(lit_dep_features(), dtail5(d), s@.skip(i + enc_dep(d).len()));
                        assert(dtail4(d) + s@.skip(i + enc_dep(d).len()) == lit_dep_features() + (dtail5(d) + s@.skip(i + enc_dep(d).len())));
                        lemma_prefix_from_concat(s@, j4 as int, lit_dep_features(), dtail5(d) + s@.skip(i + enc_dep(d).len()));
                    }
                }
            }
            return None;
        },
    };
    proof {
        assert forall|d: DepModel| #[trigger] starts_with(s@.skip(i as int), enc_dep(d)) implies s@.skip(j5 as int) == dtail5(d) + s@.skip(i + enc_dep(d).len()) by {
            lemma_add_assoc(lit_dep_features(), dtail5(d), s@.skip(i + enc_dep(d).len()));
            assert(dtail4(d) + s@.skip(i + enc_dep(d).len()) == lit_dep_features() + (dtail5(d) + s@.skip(i + enc_dep(d).len())));
            lemma_prefix_from_concat(s@, j4 as int, lit_dep_features(), dtail5(d) + s@.skip(i + enc_dep(d).len()));
        }
    }
    let r5 = parse_str_array(s, j5);
    let (x5, j6) = match r5 {
        Some(p) => p,
        None => {
            proof {
                assert forall|d: DepModel| !(#[trigger] starts_with(s@.skip(i as int), enc_dep(d))) by {
                    if starts_with(s@.skip(i as int), enc_dep(d)) {
                        lemma_add_assoc(enc_str_array(d.features), dtail6(d), s@.skip(i + enc_dep(d).len()));
                        assert(dtail5(d) + s@.skip(i + enc_dep(d).len()) == enc_str_array(d.features) + (dtail6(d) + s@.skip(i + enc_dep(d).len())));
                        lemma_prefix_from_concat(s@, j5 as int, enc_str_array(d.features), dtail6(d) + s@.skip(i + enc_dep(d).len()));
                    }
                }
            }
            return None;
        },
    };
    proof {
        assert forall|d: DepModel| #[trigger] starts_with(s@.skip(i as int), enc_dep(d)) implies byte_views(x5@) == d.features && s@.skip(j6 as int) == dtail6(d) + s@.skip(i + enc_dep(d).len()) && j6 <= s@.len() by {
            lemma_add_assoc(enc_str_array(d.features), dtail6(d), s@.skip(i + enc_dep(d).len()));
            assert(dtail5(d) + s@.skip(i + enc_dep(d).len()) == enc_str_array(d.features) + (dtail6(d) + s@.skip(i + enc_dep(d).len())));
            lemma_prefix_from_concat(s@, j5 as int, enc_str_array(d.features), dtail6(d) + s@.skip(i + enc_dep(d).len()));
            lemma_consume(s@, j5 as int, j6 as int, enc_str_array(d.features), dtail6(d) + s@.skip(i + enc_dep(d).len()));
        }
    }
    let lb6 = lit_optional_bytes();
    let r6 = parse_lit(s, j6, &lb6);
    let j7 = match r6 {
        Some(j) => j,
        None => {
            proof {
                assert forall|d: DepModel| !(#[trigger] starts_with(s@.skip(i as int), enc_dep(d))) by {
                    if starts_with(s@.skip(i as int), enc_dep(d)) {
                        lemma_add_assoc(lit_optional(), dtail7(d), s@.skip(i + enc_dep(d).len()));
                        assert(dtail6(d) + s@.skip(i + enc_dep(d).len()) == lit_optional() + (dtail7(d) + s@.skip(i + enc_dep(d).len())));
                        lemma_prefix_from_concat(s@, j6 as int, lit_optional(), dtail7(d) + s@.skip(i + enc_dep(d).len()));
                    }
                }
            }
            return None;
        },
    };
    proof {
        assert forall|d: DepModel| #[trigger] starts_with(s@.skip(i as int), enc_dep(d)) implies s@.skip(j7 as int) == dtail7(d) + s@.skip(i + enc_dep(d).len()) by {
            lemma_add_assoc(lit_optional(), dtail7(d), s@.skip(i + enc_dep(d).len()));
            assert(dtail6(d) + s@.skip(i + enc_dep(d).len()) == lit_optional() + (dtail7(d) + s@.skip(i + enc_dep(d).len())));
            lemma_prefix_from_concat(s@, j6 as int, lit_optional(), dtail7(d) + s@.skip(i + enc_dep(d).len()));
        }
    }
    let r7 = parse_bool(s, j7);
    let (x7, j8) = match r7 {
        Some(p) => p,
        None => {
            proof {
                assert forall|d: DepModel| !(#[trigger] starts_with(s@.skip(i as int), enc_dep(d))) by {
                    if starts_with(s@.skip(i as int), enc_dep(d)) {
                        lemma_add_assoc(enc_bool(d.optional), dtail8(d), s@.skip(i + enc_dep(d).len()));
                        assert(dtail7(d) + s@.skip(i + enc_dep(d).len()) == enc_bool(d.optional) + (dtail8(d) + s@.skip(i + enc_dep(d).len())));
                        lemma_prefix_from_concat(s@, j7 as int, enc_bool(d.optional), dtail8(d) + s@.skip(i + enc_dep(d).len()));
                    }
                }
            }
            return None;
        },
    };
    proof {
        assert forall|d: DepModel| #[trigger] starts_with(s@.skip(i as int), enc_dep(d)) implies x7 == d.optional && s@.skip(j8 as int) == dtail8(d) + s@.skip(i + enc_dep(d).len()) && j8 <= s@.len() by {
            lemma_add_assoc(enc_bool(d.optional), dtail8(d), s@.skip(i + enc_dep(d).len()));
            assert(dtail7(d) + s@.skip(i + enc_dep(d).len()) == enc_bool(d.optional) + (dtail8(d) + s@.skip(i + enc_dep(d).len())));
            lemma_prefix_from_concat(s@, j7 as int, enc_bool(d.optional), dtail8(d) + s@.skip(i + enc_dep(d).len()));
            lemma_consume(s@, j7 as int, j8 as int, enc_bool(d.optional), dtail8(d) + s@.skip(i + enc_dep(d).len()));
        }
    }
    let rrest = parse_dep_rest(s, i, j8);
    let (restvals, jend) = match rrest {
        Some(p) => p,
        None => {
            proof {
                // For any candidate model the helper's contract promised
                // success, so no candidate fits this input.
                assert forall|d: DepModel| !(#[trigger] starts_with(s@.skip(i as int), enc_dep(d))) by {
                    if starts_with(s@.skip(i as int), enc_dep(d)) {
                        assert(false);
                    }
                }
            }
            return None;
        },
    };
    let built = DependencySpec { name: x1, version_requirement: x3, features: x5, optional: x7, use_default_features: restvals.0, target: restvals.1, kind: restvals.2 };
    proof {
        lemma_subrange_concat(s@, i as int, i as int, j1 as int);
        lemma_subrange_concat(s@, i as int, j1 as int, j2 as int);
        lemma_subrange_concat(s@, i as int, j2 as int, j3 as int);
        lemma_subrange_concat(s@, i as int, j3 as int, j4 as int);
        lemma_subrange_concat(s@, i as int, j4 as int, j5 as int);
        lemma_subrange_concat(s@, i as int, j5 as int, j6 as int);
        lemma_subrange_concat(s@, i as int, j6 as int, j7 as int);
        lemma_subrange_concat(s@, i as int, j7 as int, j8 as int);
        lemma_subrange_concat(s@, i as int, j8 as int, jend as int);
        reveal(enc_dep);
        assert(s@.subrange(i as int, j8 as int) == lit_obj_name() + enc_str(x1@) + lit_version_requirement() + enc_str(x3@) + lit_dep_features() + enc_str_array(byte_views(x5@)) + lit_optional() + enc_bool(x7));
        assert(s@.subrange(j8 as int, jend as int) == lit_use_default_features() + enc_bool(restvals.0) + lit_target() + enc_opt_str(opt_bytes_view(restvals.1)) + lit_kind() + enc_str(restvals.2@) + lit_close());
        lemma_add_assoc(lit_obj_name() + enc_str(x1@) + lit_version_requirement() + enc_str(x3@) + lit_dep_features() + enc_str_array(byte_views(x5@)) + lit_optional() + enc_bool(x7), lit_use_default_features() + enc_bool(restvals.0) + lit_target() + enc_opt_str(opt_bytes_view(restvals.1)) + lit_kind() + enc_str(restvals.2@), lit_close());
        lemma_add_assoc(lit_obj_name() + enc_str(x1@) + lit_version_requirement() + enc_str(x3@) + lit_dep_features() + enc_str_array(byte_views(x5@)) + lit_optional() + enc_bool(x7), lit_use_default_features() + enc_bool(restvals.0) + lit_target() + enc_opt_str(opt_bytes_view(restvals.1)) + lit_kind(), enc_str(restvals.2@));
        lemma_add_assoc(lit_obj_name() + enc_str(x1@) + lit_version_requirement() + enc_str(x3@) + lit_dep_features() + enc_str_array(byte_views(x5@)) + lit_optional() + enc_bool(x7), lit_use_default_features() + enc_bool(restvals.0) + lit_target() + enc_opt_str(opt_bytes_view(restvals.1)), lit_kind());
        lemma_add_assoc(lit_obj_name() + enc_str(x1@) + lit_version_requirement() + enc_str(x3@) + lit_dep_features() + enc_str_array(byte_views(x5@)) + lit_optional() + enc_bool(x7), lit_use_default_features() + enc_bool(restvals.0) + lit_target(), enc_opt_str(opt_bytes_view(restvals.1)));
        lemma_add_assoc(lit_obj_name() + enc_str(x1@) + lit_version_requirement() + enc_str(x3@) + lit_dep_features() + enc_str_array(byte_views(x5@)) + lit_optional() + enc_bool(x7), lit_use_default_features() + enc_bool(restvals.0), lit_target());
        lemma_add_assoc(lit_obj_name() + enc_str(x1@) + lit_version_requirement() + enc_str(x3@) + lit_dep_features() + enc_str_array(byte_views(x5@)) + lit_optional() + enc_bool(x7), lit_use_default_features(), enc_bool(restvals.0));
        assert(s@.subrange(i as int, jend as int) == enc_dep(built@));
        assert forall|d: DepModel| #[trigger] starts_with(s@.skip(i as int), enc_dep(d)) implies built@ == d && jend == i + enc_dep(d).len() by {
            assert(built@ =~= d);
        }
    }
    Some((built, jend))
}

/// The later fields of parse_record_at, from token 7 on.
#[verifier::rlimit(100)]
#[verifier::spinoff_prover]
fn parse_record_at_rest(s: &[u8], i0: usize, jin: usize) -> (r: Option<((Vec<u8>, Vec<(Vec<u8>, Vec<Vec<u8>>)>, bool), usize)>)
    requires
        i0 <= s@.len(),
        jin <= s@.len(),
        forall|m: RecordModel| #[trigger] starts_with(s@.skip(i0 as int), enc_record(m)) ==> s@.skip(jin as int) == rtail7(m) + s@.skip(i0 + enc_record(m).len()),
    ensures
        r matches Some(p) ==> jin < p.1 <= s@.len() && s@.subrange(jin as int, p.1 as int) == enc_str(p.0.0@) + lit_features() + enc_feats(feat_views(p.0.1@)) + lit_yanked() + enc_bool(p.0.2) + lit_close(),
        forall|m: RecordModel| #[trigger] starts_with(s@.skip(i0 as int), enc_record(m)) ==> (r matches Some(p) && p.0.0@ == m.checksum && feat_views(p.0.1@) == m.features && p.0.2 == m.yanked && p.1 == i0 + enc_record(m).len()),
{
    let r7 = parse_string(s, jin);
    let (x7, j8) = match r7 {
        Some(p) => p,
        None => {
            proof {
                assert forall|m: RecordModel| !(#[trigger] starts_with(s@.skip(i0 as int), enc_record(m))) by {
                    if starts_with(s@.skip(i0 as int), enc_record(m)) {
                        lemma_add_assoc(enc_str(m.checksum), rtail8(m), s@.skip(i0 + enc_record(m).len()));
                        assert(rtail7(m) + s@.skip(i0 + enc_record(m).len()) == enc_str(m.checksum) + (rtail8(m) + s@.skip(i0 + enc_record(m).len())));
                        lemma_prefix_from_concat(s@, jin as int, enc_str(m.checksum), rtail8(m) + s@.skip(i0 + enc_record(m).len()));
                    }
                }
            }
            return None;
        },
    };
    proof {
        assert forall|m: RecordModel| #[trigger] starts_with(s@.skip(i0 as int), enc_record(m)) implies x7@ == m.checksum && s@.skip(j8 as int) == rtail8(m) + s@.skip(i0 + enc_record(m).len()) && j8 <= s@.len() by {
            lemma_add_assoc(enc_str(m.checksum), rtail8(m), s@.skip(i0 + enc_record(m).len()));
            assert(rtail7(m) + s@.skip(i0 + enc_record(m).len()) == enc_str(m.checksum) + (rtail8(m) + s@.skip(i0 + enc_record(m).len())));
            lemma_prefix_from_concat(s@, jin as int, enc_str(m.checksum), rtail8(m) + s@.skip(i0 + enc_record(m).len()));
            lemma_consume(s@, jin as int, j8 as int, enc_str(m.checksum), rtail8(m) + s@.skip(i0 + enc_record(m).len()));
        }
    }
    let lb8 = lit_features_bytes();
    let r8 = parse_lit(s, j8, &lb8);
    let j9 = match r8 {
        Some(j) => j,
        None => {
            proof {
                assert forall|m: RecordModel| !(#[trigger] starts_with(s@.skip(i0 as int), enc_record(m))) by {
                    if starts_with(s@.skip(i0 as int), enc_record(m)) {
                        lemma_add_assoc(lit_features(), rtail9(m), s@.skip(i0 + enc_record(m).len()));
                        assert(rtail8(m) + s@.skip(i0 + enc_record(m).len()) == lit_features() + (rtail9(m) + s@.skip(i0 + enc_record(m).len())));
                        lemma_prefix_from_concat(s@, j8 as int, lit_features(), rtail9(m) + s@.skip(i0 + enc_record(m).len()));
                    }
                }
            }
            return None;
        },
    };
    proof {
        assert forall|m: RecordModel| #[trigger] starts_with(s@.skip(i0 as int), enc_record(m)) implies s@.skip(j9 as int) == rtail9(m) + s@.skip(i0 + enc_record(m).len()) by {
            lemma_add_assoc(lit_features(), rtail9(m), s@.skip(i0 + enc_record(m).len()));
            assert(rtail8(m) + s@.skip(i0 + enc_record(m).len()) == lit_features() + (rtail9(m) + s@.skip(i0 + enc_record(m).len())));
            lemma_prefix_from_concat(s@, j8 as int, lit_features(), rtail9(m) + s@.skip(i0 + enc_record(m).len()));
        }
    }
    let r9 = parse_feats(s, j9);
    let (x9, j10) = match r9 {
        Some(p) => p,
        None => {
            proof {
                assert forall|m: RecordModel| !(#[trigger] starts_with(s@.skip(i0 as int), enc_record(m))) by {
                    if starts_with(s@.skip(i0 as int), enc_record(m)) {
                        lemma_add_assoc(enc_feats(m.features), rtail10(m), s@.skip(i0 + enc_record(m).len()));
                        assert(rtail9(m) + s@.skip(i0 + enc_record(m).len()) == enc_feats(m.features) + (rtail10(m) + s@.skip(i0 + enc_record(m).len())));
                        lemma_prefix_from_concat(s@, j9 as int, enc_feats(m.features), rtail10(m) + s@.skip(i0 + enc_record(m).len()));
                        lemma_add_assoc(lit_yanked(), rtail11(m), s@.skip(i0 + enc_record(m).len()));
                        assert(rtail10(m) + s@.skip(i0 + enc_record(m).len()) == lit_yanked() + (rtail11(m) + s@.skip(i0 + enc_record(m).len())));
                        lemma_add_assoc(enc_feats(m.features), lit_yanked(), rtail11(m) + s@.skip(i0 + enc_record(m).len()));
                        assert((enc_feats(m.features) + (rtail10(m) + s@.skip(i0 + enc_record(m).len()))) == (enc_feats(m.features) + lit_yanked()) + (rtail11(m) + s@.skip(i0 + enc_record(m).len())));
                        lemma_prefix_from_concat(s@, j9 as int, enc_feats(m.features) + lit_yanked(), rtail11(m) + s@.skip(i0 + enc_record(m).len()));
                    }
                }
            }
            return None;
        },
    };
    proof {
        assert forall|m: RecordModel| #[trigger] starts_with(s@.skip(i0 as int), enc_record(m)) implies feat_views(x9@) == m.features && s@.skip(j10 as int) == rtail10(m) + s@.skip(i0 + enc_record(m).len()) && j10 <= s@.len() by {
            lemma_add_assoc(enc_feats(m.features), rtail10(m), s@.skip(i0 + enc_record(m).len()));
            assert(rtail9(m) + s@.skip(i0 + enc_record(m).len()) == enc_feats(m.features) + (rtail10(m) + s@.skip(i0 + enc_record(m).len())));
            lemma_prefix_from_concat(s@, j9 as int, enc_feats(m.features), rtail10(m) + s@.skip(i0 + enc_record(m).len()));
            lemma_add_assoc(lit_yanked(), rtail11(m), s@.skip(i0 + enc_record(m).len()));
            assert(rtail10(m) + s@.skip(i0 + enc_record(m).len()) == lit_yanked() + (rtail11(m) + s@.skip(i0 + enc_record(m).len())));
            lemma_add_assoc(enc_feats(m.features), lit_yanked(), rtail11(m) + s@.skip(i0 + enc_record(m).len()));
            assert((enc_feats(m.features) + (rtail10(m) + s@.skip(i0 + enc_record(m).len()))) == (enc_feats(m.features) + lit_yanked()) + (rtail11(m) + s@.skip(i0 + enc_record(m).len())));
            lemma_prefix_from_concat(s@, j9 as int, enc_feats(m.features) + lit_yanked(), rtail11(m) + s@.skip(i0 + enc_record(m).len()));
            lemma_consume(s@, j9 as int, j10 as int, enc_feats(m.features), rtail10(m) + s@.skip(i0 + enc_record(m).len()));
        }
    }
    let lb10 = lit_yanked_bytes();
    let r10 = parse_lit(s, j10, &lb10);
    let j11 = match r10 {
        Some(j) => j,
        None => {
            proof {
                assert forall|m: RecordModel| !(#[trigger] starts_with(s@.skip(i0 as int), enc_record(m))) by {
                    if starts_with(s@.skip(i0 as int), enc_record(m)) {
                        lemma_add_assoc(lit_yanked(), rtail11(m), s@.skip(i0 + enc_record(m).len()));
                        assert(rtail10(m) + s@.skip(i0 + enc_record(m).len()) == lit_yanked() + (rtail11(m) + s@.skip(i0 + enc_record(m).len())));
                        lemma_prefix_from_concat(s@, j10 as int, lit_yanked(), rtail11(m) + s@.skip(i0 + enc_record(m).len()));
                    }
                }
            }
            return None;
        },
    };
    proof {
        assert forall|m: RecordModel| #[trigger] starts_with(s@.skip(i0 as int), enc_record(m)) implies s@.skip(j11 as int) == rtail11(m) + s@.skip(i0 + enc_record(m).len()) by {
            lemma_add_assoc(lit_yanked(), rtail11(m), s@.skip(i0 + enc_record(m).len()));
            assert(rtail10(m) + s@.skip(i0 + enc_record(m).len()) == lit_yanked() + (rtail11(m) + s@.skip(i0 + enc_record(m).len())));
            lemma_prefix_from_concat(s@, j10 as int, lit_yanked(), rtail11(m) + s@.skip(i0 + enc_record(m).len()));
        }
    }
    let r11 = parse_bool(s, j11);
    let (x11, j12) = match r11 {
        Some(p) => p,
        None => {
            proof {
                assert forall|m: RecordModel| !(#[trigger] starts_with(s@.skip(i0 as int), enc_record(m))) by {
                    if starts_with(s@.skip(i0 as int), enc_record(m)) {
                        lemma_add_assoc(enc_bool(m.yanked), rtail12(m), s@.skip(i0 + enc_record(m).len()));
                        assert(rtail11(m) + s@.skip(i0 + enc_record(m).len()) == enc_bool(m.yanked) + (rtail12(m) + s@.skip(i0 + enc_record(m).len())));
                        lemma_prefix_from_concat(s@, j11 as int, enc_bool(m.yanked), rtail12(m) + s@.skip(i0 + enc_record(m).len()));
                    }
                }
            }
            return None;
        },
    };
    proof {
        assert forall|m: RecordModel| #[trigger] starts_with(s@.skip(i0 as int), enc_record(m)) implies x11 == m.yanked && s@.skip(j12 as int) == rtail12(m) + s@.skip(i0 + enc_record(m).len()) && j12 <= s@.len() by {
            lemma_add_assoc(enc_bool(m.yanked), rtail12(m), s@.skip(i0 + enc_record(m).len()));
            assert(rtail11(m) + s@.skip(i0 + enc_record(m).len()) == enc_bool(m.yanked) + (rtail12(m) + s@.skip(i0 + enc_record(m).len())));
            lemma_prefix_from_concat(s@, j11 as int, enc_bool(m.yanked), rtail12(m) + s@.skip(i0 + enc_record(m).len()));
            lemma_consume(s@, j11 as int, j12 as int, enc_bool(m.yanked), rtail12(m) + s@.skip(i0 + enc_record(m).len()));
        }
    }
    let lb12 = lit_close_bytes();
    let r12 = parse_lit(s, j12, &lb12);
    let j13 = match r12 {
        Some(j) => j,
        None => {
            proof {
                assert forall|m: RecordModel| !(#[trigger] starts_with(s@.skip(i0 as int), enc_record(m))) by {
                    if starts_with(s@.skip(i0 as int), enc_record(m)) {
                        assert(rtail12(m) + s@.skip(i0 + enc_record(m).len()) == lit_close() + (s@.skip(i0 + enc_record(m).len())));
                        lemma_prefix_from_concat(s@, j12 as int, lit_close(), s@.skip(i0 + enc_record(m).len()));
                    }
                }
            }
            return None;
        },
    };
    proof {
        assert forall|m: RecordModel| #[trigger] starts_with(s@.skip(i0 as int), enc_record(m)) implies s@.skip(j13 as int) == s@.skip(i0 + enc_record(m).len()) by {
            assert(rtail12(m) + s@.skip(i0 + enc_record(m).len()) == lit_close() + (s@.skip(i0 + enc_record(m).len())));
            lemma_prefix_from_concat(s@, j12 as int, lit_close(), s@.skip(i0 + enc_record(m).len()));
        }
    }
    proof {
            lemma_subrange_concat(s@, jin as int, jin as int, j8 as int);
            lemma_subrange_concat(s@, jin as int, j8 as int, j9 as int);
            lemma_subrange_concat(s@, jin as int, j9 as int, j10 as int);
            lemma_subrange_concat(s@, jin as int, j10 as int, j11 as int);
            lemma_subrange_concat(s@, jin as int, j11 as int, j12 as int);
            lemma_subrange_concat(s@, jin as int, j12 as int, j13 as int);
        assert(s@.subrange(jin as int, j13 as int) =~= enc_str(x7@) + lit_features() + enc_feats(feat_views(x9@)) + lit_yanked() + enc_bool(x11) + lit_close());
        assert forall|m: RecordModel| #[trigger] starts_with(s@.skip(i0 as int), enc_record(m)) implies j13 == i0 + enc_record(m).len() by {
            lemma_concat_from_prefix(s@, i0 as int, enc_record(m));
            assert(s@.skip(j13 as int).len() == s@.skip(i0 + enc_record(m).len()).len());
        }
    }
    Some(((x7, x9, x11), j13))
}

/// Parse one record object at `i`.
#[verifier::rlimit(100)]
#[verifier::spinoff_prover]
fn parse_record_at(s: &[u8], i: usize) -> (r: Option<(PackageVersionRecord, usize)>)
    requires
        i <= s@.len(),
    ensures
        r matches Some(p) ==> i < p.1 <= s@.len() && s@.subrange(i as int, p.1 as int) == enc_record(p.0@),
        forall|m: RecordModel| #[trigger] starts_with(s@.skip(i as int), enc_record(m)) ==> (r matches Some(p) && p.0@ == m && p.1 == i + enc_record(m).len()),
{
    proof {
        assert forall|m: RecordModel| #[trigger] starts_with(s@.skip(i as int), enc_record(m)) implies s@.skip(i as int) == lit_obj_name() + (rtail1(m) + s@.skip(i + enc_record(m).len())) by {
            lemma_concat_from_prefix(s@, i as int, enc_record(m));
            lemma_enc_record_tails(m);
            lemma_add_assoc(lit_obj_name(), rtail1(m), s@.skip(i + enc_record(m).len()));
        }
    }
    let lb0 = lit_obj_name_bytes();
    let r0 = parse_lit(s, i, &lb0);
    let j1 = match r0 {
        Some(j) => j,
        None => {
            proof {
                assert forall|m: RecordModel| !(#[trigger] starts_with(s@.skip(i as int), enc_record(m))) by {
                    if starts_with(s@.skip(i as int), enc_record(m)) {
                        lemma_add_assoc(lit_obj_name(), rtail1(m), s@.skip(i + enc_record(m).len()));
                        lemma_prefix_from_concat(s@, i as int, lit_obj_name(), rtail1(m) + s@.skip(i + enc_record(m).len()));
                    }
                }
            }
            return None;
        },
    };
    proof {
        assert forall|m: RecordModel| #[trigger] starts_with(s@.skip(i as int), enc_record(m)) implies s@.skip(j1 as int) == rtail1(m) + s@.skip(i + enc_record(m).len()) by {
            lemma_add_assoc(lit_obj_name(), rtail1(m), s@.skip(i + enc_record(m).len()));
            lemma_prefix_from_concat(s@, i as int, lit_obj_name(), rtail1(m) + s@.skip(i + enc_record(m).len()));
        }
    }
    let r1 = parse_string(s, j1);
    let (x1, j2) = match r1 {
        Some(p) => p,
        None => {
            proof {
                assert forall|m: RecordModel| !(#[trigger] starts_with(s@.skip(i as int), enc_record(m))) by {
                    if starts_with(s@.skip(i as int), enc_record(m)) {
                        lemma_add_assoc(enc_str(m.name), rtail2(m), s@.skip(i + enc_record(m).len()));
                        assert(rtail1(m) + s@.skip(i + enc_record(m).len()) == enc_str(m.name) + (rtail2(m) + s@.skip(i + enc_record(m).len())));
                        lemma_prefix_from_concat(s@, j1 as int, enc_str(m.name), rtail2(m) + s@.skip(i + enc_record(m).len()));
                    }
                }
            }
            return None;
        },
    };
    proof {
        assert forall|m: RecordModel| #[trigger] starts_with(s@.skip(i as int), enc_record(m)) implies x1@ == m.name && s@.skip(j2 as int) == rtail2(m) + s@.skip(i + enc_record(m).len()) && j2 <= s@.len() by {
            lemma_add_assoc(enc_str(m.name), rtail2(m), s@.skip(i + enc_record(m).len()));
            assert(rtail1(m) + s@.skip(i + enc_record(m).len()) == enc_str(m.name) + (rtail2(m) + s@.skip(i + enc_record(m).len())));
            lemma_prefix_from_concat(s@, j1 as int, enc_str(m.name), rtail2(m) + s@.skip(i + enc_record(m).len()));
            lemma_consume(s@, j1 as int, j2 as int, enc_str(m.name), rtail2(m) + s@.skip(i + enc_record(m).len()));
        }
    }
    let lb2 = lit_version_bytes();
    let r2 = parse_lit(s, j2, &lb2);
    let j3 = match r2 {
        Some(j) => j,
        None => {
            proof {
                assert forall|m: RecordModel| !(#[trigger] starts_with(s@.skip(i as int), enc_record(m))) by {
                    if starts_with(s@.skip(i as int), enc_record(m)) {
                        lemma_add_assoc(lit_version(), rtail3(m), s@.skip(i + enc_record(m).len()));
                        assert(rtail2(m) + s@.skip(i + enc_record(m).len()) == lit_version() + (rtail3(m) + s@.skip(i + enc_record(m).len())));
                        lemma_prefix_from_concat(s@, j2 as int, lit_version(), rtail3(m) + s@.skip(i + enc_record(m).len()));
                    }
                }
            }
            return None;
        },
    };
    proof {
        assert forall|m: RecordModel| #[trigger] starts_with(s@.skip(i as int), enc_record(m)) implies s@.skip(j3 as int) == rtail3(m) + s@.skip(i + enc_record(m).len()) by {
            lemma_add_assoc(lit_version(), rtail3(m), s@.skip(i + enc_record(m).len()));
            assert(rtail2(m) + s@.skip(i + enc_record(m).len()) == lit_version() + (rtail3(m) + s@.skip(i + enc_record(m).len())));
            lemma_prefix_from_concat(s@, j2 as int, lit_version(), rtail3(m) + s@.skip(i + enc_record(m).len()));
        }
    }
    let r3 = parse_string(s, j3);
    let (x3, j4) = match r3 {
        Some(p) => p,
        None => {
            proof {
                assert forall|m: RecordModel| !(#[trigger] starts_with(s@.skip(i as int), enc_record(m))) by {
                    if starts_with(s@.skip(i as int), enc_record(m)) {
                        lemma_add_assoc(enc_str(m.version), rtail4(m), s@.skip(i + enc_record(m).len()));
                        assert(rtail3(m) + s@.skip(i + enc_record(m).len()) == enc_str(m.version) + (rtail4(m) + s@.skip(i + enc_record(m).len())));
                        lemma_prefix_from_concat(s@, j3 as int, enc_str(m.version), rtail4(m) + s@.skip(i + enc_record(m).len()));
                    }
                }
            }
            return None;
        },
    };
    proof {
        assert forall|m: RecordModel| #[trigger] starts_with(s@.skip(i as int), enc_record(m)) implies x3@ == m.version && s@.skip(j4 as int) == rtail4(m) + s@.skip(i + enc_record(m).len()) && j4 <= s@.len() by {
            lemma_add_assoc(enc_str(m.version), rtail4(m), s@.skip(i + enc_record(m).len()));
            assert(rtail3(m) + s@.skip(i + enc_record(m).len()) == enc_str(m.version) + (rtail4(m) + s@.skip(i + enc_record(m).len())));
            lemma_prefix_from_concat(s@, j3 as int, enc_str(m.version), rtail4(m) + s@.skip(i + enc_record(m).len()));
            lemma_consume(s@, j3 as int, j4 as int, enc_str(m.version), rtail4(m) + s@.skip(i + enc_record(m).len()));
        }
    }
    let lb4 = lit_dependencies_bytes();
    let r4 = parse_lit(s, j4, &lb4);
    let j5 = match r4 {
        Some(j) => j,
        None => {
            proof {
                assert forall|m: RecordModel| !(#[trigger] starts_with(s@.skip(i as int), enc_record(m))) by {
                    if starts_with(s@.skip(i as int), enc_record(m)) {
                        lemma_add_assoc(lit_dependencies(), rtail5(m), s@.skip(i + enc_record(m).len()));
                        assert(rtail4(m) + s@.skip(i + enc_record(m).len()) == lit_dependencies() + (rtail5(m) + s@.skip(i + enc_record(m).len())));
                        lemma_prefix_from_concat(s@, j4 as int, lit_dependencies(), rtail5(m) + s@.skip(i + enc_record(m).len()));
                    }
                }
            }
            return None;
        },
    };
    proof {
        assert forall|m: RecordModel| #[trigger] starts_with(s@.skip(i as int), enc_record(m)) implies s@.skip(j5 as int) == rtail5(m) + s@.skip(i + enc_record(m).len()) by {
            lemma_add_assoc(lit_dependencies(), rtail5(m), s@.skip(i + enc_record(m).len()));
            assert(rtail4(m) + s@.skip(i + enc_record(m).len()) == lit_dependencies() + (rtail5(m) + s@.skip(i + enc_record(m).len())));
            lemma_prefix_from_concat(s@, j4 as int, lit_dependencies(), rtail5(m) + s@.skip(i + enc_record(m).len()));
        }
    }
    let r5 = parse_deps(s, j5);
    let (x5, j6) = match r5 {
        Some(p) => p,
        None => {
            proof {
                assert forall|m: RecordModel| !(#[trigger] starts_with(s@.skip(i as int), enc_record(m))) by {
                    if starts_with(s@.skip(i as int), enc_record(m)) {
                        lemma_add_assoc(enc_deps(m.dependencies), rtail6(m), s@.skip(i + enc_record(m).len()));
                        assert(rtail5(m) + s@.skip(i + enc_record(m).len()) == enc_deps(m.dependencies) + (rtail6(m) + s@.skip(i + enc_record(m).len())));
                        lemma_prefix_from_concat(s@, j5 as int, enc_deps(m.dependencies), rtail6(m) + s@.skip(i + enc_record(m).len()));
                        lemma_add_assoc(lit_checksum(), rtail7(m), s@.skip(i + enc_record(m).len()));
                        assert(rtail6(m) + s@.skip(i + enc_record(m).len()) == lit_checksum() + (rtail7(m) + s@.skip(i + enc_record(m).len())));
                        lemma_add_assoc(enc_deps(m.dependencies), lit_checksum(), rtail7(m) + s@.skip(i + enc_record(m).len()));
                        assert((enc_deps(m.dependencies) + (rtail6(m) + s@.skip(i + enc_record(m).len()))) == (enc_deps(m.dependencies) + lit_checksum()) + (rtail7(m) + s@.skip(i + enc_record(m).len())));
                        lemma_prefix_from_concat(s@, j5 as int, enc_deps(m.dependencies) + lit_checksum(), rtail7(m) + s@.skip(i + enc_record(m).len()));
                    }
                }
            }
            return None;
        },
    };
    proof {
        assert forall|m: RecordModel| #[trigger] starts_with(s@.skip(i as int), enc_record(m)) implies dep_views(x5@) == m.dependencies && s@.skip(j6 as int) == rtail6(m) + s@.skip(i + enc_record(m).len()) && j6 <= s@.len() by {
            lemma_add_assoc(enc_deps(m.dependencies), rtail6(m), s@.skip(i + enc_record(m).len()));
            assert(rtail5(m) + s@.skip(i + enc_record(m).len()) == enc_deps(m.dependencies) + (rtail6(m) + s@.skip(i + enc_record(m).len())));
            lemma_prefix_from_concat(s@, j5 as int, enc_deps(m.dependencies), rtail6(m) + s@.skip(i + enc_record(m).len()));
            lemma_add_assoc(lit_checksum(), rtail7(m), s@.skip(i + enc_record(m).len()));
            assert(rtail6(m) + s@.skip(i + enc_record(m).len()) == lit_checksum() + (rtail7(m) + s@.skip(i + enc_record(m).len())));
            lemma_add_assoc(enc_deps(m.dependencies), lit_checksum(), rtail7(m) + s@.skip(i + enc_record(m).len()));
            assert((enc_deps(m.dependencies) + (rtail6(m) + s@.skip(i + enc_record(m).len()))) == (enc_deps(m.dependencies) + lit_checksum()) + (rtail7(m) + s@.skip(i + enc_record(m).len())));
            lemma_prefix_from_concat(s@, j5 as int, enc_deps(m.dependencies) + lit_checksum(), rtail7(m) + s@.skip(i + enc_record(m).len()));
            lemma_consume(s@, j5 as int, j6 as int, enc_deps(m.dependencies), rtail6(m) + s@.skip(i + enc_record(m).len()));
        }
    }
    let lb6 = lit_checksum_bytes();
    let r6 = parse_lit(s, j6, &lb6);
    let j7 = match r6 {
        Some(j) => j,
        None => {
            proof {
                assert forall|m: RecordModel| !(#[trigger] starts_with(s@.skip(i as int), enc_record(m))) by {
                    if starts_with(s@.skip(i as int), enc_record(m)) {
                        lemma_add_assoc(lit_checksum(), rtail7(m), s@.skip(i + enc_record(m).len()));
                        assert(rtail6(m) + s@.skip(i + enc_record(m).len()) == lit_checksum() + (rtail7(m) + s@.skip(i + enc_record(m).len())));
                        lemma_prefix_from_concat(s@, j6 as int, lit_checksum(), rtail7(m) + s@.skip(i + enc_record(m).len()));
                    }
                }
            }
            return None;
        },
    };
    proof {
        assert forall|m: RecordModel| #[trigger] starts_with(s@.skip(i as int), enc_record(m)) implies s@.skip(j7 as int) == rtail7(m) + s@.skip(i + enc_record(m).len()) by {
            lemma_add_assoc(lit_checksum(), rtail7(m), s@.skip(i + enc_record(m).len()));
            assert(rtail6(m) + s@.skip(i + enc_record(m).len()) == lit_checksum() + (rtail7(m) + s@.skip(i + enc_record(m).len())));
            lemma_prefix_from_concat(s@, j6 as int, lit_checksum(), rtail7(m) + s@.skip(i + enc_record(m).len()));
        }
    }
    let rrest = parse_record_at_rest(s, i, j7);
    let (restvals, jend) = match rrest {
        Some(p) => p,
        None => {
            proof {
                // For any candidate model the helper's contract promised
                // success, so no candidate fits this input.
                assert forall|m: RecordModel| !(#[trigger] starts_with(s@.skip(i as int), enc_record(m))) by {
                    if starts_with(s@.skip(i as int), enc_record(m)) {
                        assert(false);
                    }
                }
            }
            return None;
        },
    };
    let built = PackageVersionRecord { name: x1, version: x3, dependencies: x5, checksum: restvals.0, features: restvals.1, yanked: restvals.2 };
    proof {
        lemma_subrange_concat(s@, i as int, i as int, j1 as int);
        lemma_subrange_concat(s@, i as int, j1 as int, j2 as int);
        lemma_subrange_concat(s@, i as int, j2 as int, j3 as int);
        lemma_subrange_concat(s@, i as int, j3 as int, j4 as int);
        lemma_subrange_concat(s@, i as int, j4 as int, j5 as int);
        lemma_subrange_concat(s@, i as int, j5 as int, j6 as int);
        lemma_subrange_concat(s@, i as int, j6 as int, j7 as int);
        lemma_subrange_concat(s@, i as int, j7 as int, jend as int);
        reveal(enc_record);
        assert(s@.subrange(i as int, j7 as int) == lit_obj_name() + enc_str(x1@) + lit_version() + enc_str(x3@) + lit_dependencies() + enc_deps(dep_views(x5@)) + lit_checksum());
        assert(s@.subrange(j7 as int, jend as int) == enc_str(restvals.0@) + lit_features() + enc_feats(feat_views(restvals.1@)) + lit_yanked() + enc_bool(restvals.2) + lit_close());
        lemma_add_assoc(lit_obj_name() + enc_str(x1@) + lit_version() + enc_str(x3@) + lit_dependencies() + enc_deps(dep_views(x5@)) + lit_checksum(), enc_str(restvals.0@) + lit_features() + enc_feats(feat_views(restvals.1@)) + lit_yanked() + enc_bool(restvals.2), lit_close());
        lemma_add_assoc(lit_obj_name() + enc_str(x1@) + lit_version() + enc_str(x3@) + lit_dependencies() + enc_deps(dep_views(x5@)) + lit_checksum(), enc_str(restvals.0@) + lit_features() + enc_feats(feat_views(restvals.1@)) + lit_yanked(), enc_bool(restvals.2));
        lemma_add_assoc(lit_obj_name() + enc_str(x1@) + lit_version() + enc_str(x3@) + lit_dependencies() + enc_deps(dep_views(x5@)) + lit_checksum(), enc_str(restvals.0@) + lit_features() + enc_feats(feat_views(restvals.1@)), lit_yanked());
        lemma_add_assoc(lit_obj_name() + enc_str(x1@) + lit_version() + enc_str(x3@) + lit_dependencies() + enc_deps(dep_views(x5@)) + lit_checksum(), enc_str(restvals.0@) + lit_features(), enc_feats(feat_views(restvals.1@)));
        lemma_add_assoc(lit_obj_name() + enc_str(x1@) + lit_version() + enc_str(x3@) + lit_dependencies() + enc_deps(dep_views(x5@)) + lit_checksum(), enc_str(restvals.0@), lit_features());
        assert(s@.subrange(i as int, jend as int) == enc_record(built@));
        assert forall|m: RecordModel| #[trigger] starts_with(s@.skip(i as int), enc_record(m)) implies built@ == m && jend == i + enc_record(m).len() by {
            assert(built@ =~= m);
        }
    }
    Some((built, jend))
}

/// Parse a comma-separated list of dependency objects at `i`, ending (exclusively)
/// at the closing token that the following literal begins with.
#[verifier::rlimit(100)]
#[verifier::spinoff_prover]
fn parse_deps(s: &[u8], i: usize) -> (r: Option<(Vec<DependencySpec>, usize)>)
    requires
        i <= s@.len(),
    ensures
        r matches Some(p) ==> i <= p.1 <= s@.len() && s@.subrange(i as int, p.1 as int) == enc_deps(
            dep_views(p.0@),
        ),
        forall|xs: Seq<DepModel>| #[trigger] starts_with(s@.skip(i as int), enc_deps(xs) + lit_checksum()) ==> (
        r matches Some(p) && dep_views(p.0@) == xs && p.1 == i + enc_deps(xs).len()),
{
    proof {
        assert forall|xs: Seq<DepModel>| #[trigger] starts_with(s@.skip(i as int), enc_deps(xs) + lit_checksum())
            && xs.len() > 0 implies s@.skip(i as int) == enc_dep(xs[0]) + (enc_deps_rest(xs.skip(1)) + (
        lit_checksum() + s@.skip(i + enc_deps(xs).len() + lit_checksum().len()))) by {
            lemma_concat_from_prefix(s@, i as int, enc_deps(xs) + lit_checksum());
            let rr = s@.skip(i + (enc_deps(xs) + lit_checksum()).len());
            assert(s@.skip(i + (enc_deps(xs) + lit_checksum()).len()) =~= s@.skip(i + enc_deps(xs).len() + lit_checksum().len()));
            lemma_enc_dep_tails(xs[0]);
            assert((enc_deps(xs) + lit_checksum()) + rr =~= enc_dep(xs[0]) + (enc_deps_rest(xs.skip(1)) + (lit_checksum()
                + s@.skip(i + enc_deps(xs).len() + lit_checksum().len()))));
        }
        assert forall|xs: Seq<DepModel>| #[trigger] starts_with(s@.skip(i as int), enc_deps(xs) + lit_checksum())
            && xs.len() == 0 implies s@.skip(i as int) == lit_checksum() + s@.skip(
            i + enc_deps(xs).len() + lit_checksum().len(),
        ) by {
            lemma_concat_from_prefix(s@, i as int, enc_deps(xs) + lit_checksum());
            let rr = s@.skip(i + (enc_deps(xs) + lit_checksum()).len());
            assert(s@.skip(i + (enc_deps(xs) + lit_checksum()).len()) =~= s@.skip(i + enc_deps(xs).len() + lit_checksum().len()));
            assert((enc_deps(xs) + lit_checksum()) + rr =~= lit_checksum() + s@.skip(i + enc_deps(xs).len() + lit_checksum().len()));
        }
    }
    if i >= s.len() {
        proof {
            assert forall|xs: Seq<DepModel>| !(#[trigger] starts_with(
                s@.skip(i as int),
                enc_deps(xs) + lit_checksum(),
            )) by {
                if starts_with(s@.skip(i as int), enc_deps(xs) + lit_checksum()) {
                    assert(s@.skip(i as int).len() >= lit_checksum().len());
                }
            }
        }
        return None;
    }
    if s[i] == 93 {
        let out: Vec<DependencySpec> = Vec::new();
        proof {
            assert forall|xs: Seq<DepModel>| #[trigger] starts_with(
                s@.skip(i as int),
                enc_deps(xs) + lit_checksum(),
            ) implies dep_views(out@) == xs && i == i + enc_deps(xs).len() by {
                if xs.len() > 0 {
                    lemma_enc_dep_tails(xs[0]);
                    assert(s@.skip(i as int)[0] == enc_dep(xs[0])[0]);
                    assert(false);
                }
                assert(dep_views(out@) =~= xs);
            }
            assert(dep_views(out@) =~= Seq::<DepModel>::empty());
            assert(s@.subrange(i as int, i as int) =~= enc_deps(dep_views(out@)));
        }
        return Some((out, i));
    }
    let mut acc: Vec<DependencySpec> = Vec::new();
    let mut k: usize = i;
    proof {
        assert(dep_views(acc@) =~= Seq::<DepModel>::empty());
        assert forall|xs: Seq<DepModel>| #[trigger] starts_with(
            s@.skip(i as int),
            enc_deps(xs) + lit_checksum(),
        ) implies dep_views(acc@).len() < xs.len() && dep_views(acc@) == xs.take(dep_views(acc@).len() as int)
            && s@.skip(k as int) == enc_dep(xs[dep_views(acc@).len() as int]) + (enc_deps_rest(
            xs.skip(dep_views(acc@).len() as int + 1),
        ) + (lit_checksum() + s@.skip(i + enc_deps(xs).len() + lit_checksum().len()))) by {
            if xs.len() == 0 {
                assert(s@.skip(i as int)[0] == lit_checksum()[0]);
                assert(false);
            }
            assert(dep_views(acc@) =~= xs.take(0));
            assert(xs.skip(0int + 1) =~= xs.skip(1));
        }
    }
    loop
        invariant
            i <= k <= s@.len(),
            dep_views(acc@).len() == acc@.len(),
            acc@.len() == 0 ==> k == i,
            acc@.len() > 0 ==> s@.subrange(i as int, k as int) == enc_deps(dep_views(acc@)) + seq![44u8],
            forall|xs: Seq<DepModel>| #[trigger] starts_with(s@.skip(i as int), enc_deps(xs) + lit_checksum())
                ==> acc@.len() < xs.len() && dep_views(acc@) == xs.take(acc@.len() as int) && s@.skip(
                k as int,
            ) == enc_dep(xs[acc@.len() as int]) + (enc_deps_rest(xs.skip(acc@.len() as int + 1)) + (
            lit_checksum() + s@.skip(i + enc_deps(xs).len() + lit_checksum().len()))),
        decreases s@.len() - k,
    {
        let re = parse_dep(s, k);
        match re {
            None => {
                proof {
                    assert forall|xs: Seq<DepModel>| !(#[trigger] starts_with(
                        s@.skip(i as int),
                        enc_deps(xs) + lit_checksum(),
                    )) by {
                        if starts_with(s@.skip(i as int), enc_deps(xs) + lit_checksum()) {
                            lemma_prefix_from_concat(
                                s@,
                                k as int,
                                enc_dep(xs[acc@.len() as int]),
                                enc_deps_rest(xs.skip(acc@.len() as int + 1)) + (lit_checksum() + s@.skip(
                                    i + enc_deps(xs).len() + lit_checksum().len(),
                                )),
                            );
                        }
                    }
                }
                return None;
            },
            Some((v, k2)) => {
                let ghost oldacc = acc@;
                proof {
                    assert forall|xs: Seq<DepModel>| #[trigger] starts_with(
                        s@.skip(i as int),
                        enc_deps(xs) + lit_checksum(),
                    ) implies v@ == xs[oldacc.len() as int] && k2 == k + enc_dep(
                        xs[oldacc.len() as int],
                    ).len() && s@.skip(k2 as int) == enc_deps_rest(xs.skip(oldacc.len() as int + 1)) + (
                    lit_checksum() + s@.skip(i + enc_deps(xs).len() + lit_checksum().len())) by {
                        lemma_prefix_from_concat(
                            s@,
                            k as int,
                            enc_dep(xs[oldacc.len() as int]),
                            enc_deps_rest(xs.skip(oldacc.len() as int + 1)) + (lit_checksum() + s@.skip(
                                i + enc_deps(xs).len() + lit_checksum().len(),
                            )),
                        );
                    }
                }
                acc.push(v);
                proof {
                    assert(dep_views(acc@) =~= dep_views(oldacc).push(v@));
                }
                if k2 >= s.len() {
                    proof {
                        assert forall|xs: Seq<DepModel>| !(#[trigger] starts_with(
                            s@.skip(i as int),
                            enc_deps(xs) + lit_checksum(),
                        )) by {
                            if starts_with(s@.skip(i as int), enc_deps(xs) + lit_checksum()) {
                                assert(s@.skip(k2 as int).len() >= lit_checksum().len());
                            }
                        }
                    }
                    return None;
                }
                let c2 = s[k2];
                if c2 == 44 {
                    proof {
                        assert forall|xs: Seq<DepModel>| #[trigger] starts_with(
                            s@.skip(i as int),
                            enc_deps(xs) + lit_checksum(),
                        ) implies acc@.len() < xs.len() && dep_views(acc@) == xs.take(acc@.len() as int)
                            && s@.skip(k2 as int + 1) == enc_dep(xs[acc@.len() as int]) + (enc_deps_rest(
                            xs.skip(acc@.len() as int + 1),
                        ) + (lit_checksum() + s@.skip(i + enc_deps(xs).len() + lit_checksum().len()))) by {
                            let l = oldacc.len() as int;
                            let rr = s@.skip(i + enc_deps(xs).len() + lit_checksum().len());
                            if xs.len() == l + 1 {
                                assert(xs.skip(l + 1).len() == 0);
                                assert(s@.skip(k2 as int) == lit_checksum() + rr);
                                assert(s@.skip(k2 as int)[0] == lit_checksum()[0]);
                                assert(false);
                            }
                            assert(xs.skip(l + 1).len() > 0);
                            assert(xs.skip(l + 1)[0] == xs[l + 1]);
                            assert(xs.skip(l + 1).skip(1) =~= xs.skip(l + 2));
                            assert(enc_deps_rest(xs.skip(l + 1)) + (lit_checksum() + rr) =~= seq![44u8] + (
                            enc_dep(xs[l + 1]) + (enc_deps_rest(xs.skip(l + 2)) + (lit_checksum() + rr))));
                            lemma_skip_split(
                                s@,
                                k2 as int,
                                seq![44u8],
                                enc_dep(xs[l + 1]) + (enc_deps_rest(xs.skip(l + 2)) + (lit_checksum() + rr)),
                            );
                            assert(dep_views(acc@) =~= xs.take(l + 1)) by {
                                assert(xs.take(l + 1) =~= xs.take(l).push(xs[l]));
                            }
                        }
                        lemma_enc_deps_snoc(dep_views(oldacc), v@);
                        if oldacc.len() == 0 {
                            assert(s@.subrange(i as int, k2 as int + 1) =~= enc_deps(dep_views(acc@))
                                + seq![44u8]) by {
                                assert(s@.subrange(k as int, k2 as int) == enc_dep(v@));
                                assert(s@.subrange(i as int, k2 as int + 1) =~= s@.subrange(
                                    k as int,
                                    k2 as int,
                                ) + seq![s@[k2 as int]]);
                            }
                        } else {
                            assert(s@.subrange(i as int, k2 as int + 1) =~= enc_deps(dep_views(acc@))
                                + seq![44u8]) by {
                                assert(s@.subrange(k as int, k2 as int) == enc_dep(v@));
                                assert(s@.subrange(i as int, k2 as int + 1) =~= s@.subrange(
                                    i as int,
                                    k as int,
                                ) + s@.subrange(k as int, k2 as int) + seq![s@[k2 as int]]);
                            }
                        }
                    }
                    k = k2 + 1;
                } else if c2 == 93 {
                    proof {
                        assert forall|xs: Seq<DepModel>| #[trigger] starts_with(
                            s@.skip(i as int),
                            enc_deps(xs) + lit_checksum(),
                        ) implies dep_views(acc@) == xs && k2 == i + enc_deps(xs).len() by {
                            let l = oldacc.len() as int;
                            let rr = s@.skip(i + enc_deps(xs).len() + lit_checksum().len());
                            if xs.len() > l + 1 {
                                assert(xs.skip(l + 1).len() > 0);
                                assert(xs.skip(l + 1)[0] == xs[l + 1]);
                                assert((enc_deps_rest(xs.skip(l + 1)) + (lit_checksum() + rr))[0] == 44);
                                assert(s@.skip(k2 as int)[0] == 44);
                                assert(false);
                            }
                            assert(xs.len() == l + 1);
                            assert(xs.skip(l + 1).len() == 0);
                            assert(s@.skip(k2 as int) == lit_checksum() + rr);
                            assert(s@.skip(k2 as int).len() == lit_checksum().len() + rr.len());
                            assert(dep_views(acc@) =~= xs) by {
                                assert(xs.take(l + 1) =~= xs.take(l).push(xs[l]));
                                assert(xs.take(l + 1) =~= xs);
                            }
                        }
                        lemma_enc_deps_snoc(dep_views(oldacc), v@);
                        if oldacc.len() == 0 {
                            assert(s@.subrange(i as int, k2 as int) =~= enc_deps(dep_views(acc@))) by {
                                assert(s@.subrange(k as int, k2 as int) == enc_dep(v@));
                                assert(s@.subrange(i as int, k2 as int) =~= s@.subrange(
                                    k as int,
                                    k2 as int,
                                ));
                            }
                        } else {
                            assert(s@.subrange(i as int, k2 as int) =~= enc_deps(dep_views(acc@))) by {
                                assert(s@.subrange(k as int, k2 as int) == enc_dep(v@));
                                assert(s@.subrange(i as int, k2 as int) =~= s@.subrange(
                                    i as int,
                                    k as int,
                                ) + s@.subrange(k as int, k2 as int));
                            }
                        }
                    }
                    return Some((acc, k2));
                } else {
                    proof {
                        assert forall|xs: Seq<DepModel>| !(#[trigger] starts_with(
                            s@.skip(i as int),
                            enc_deps(xs) + lit_checksum(),
                        )) by {
                            if starts_with(s@.skip(i as int), enc_deps(xs) + lit_checksum()) {
                                let l = oldacc.len() as int;
                                let rr = s@.skip(i + enc_deps(xs).len() + lit_checksum().len());
                                if xs.len() > l + 1 {
                                    assert(xs.skip(l + 1).len() > 0);
                                    assert(xs.skip(l + 1)[0] == xs[l + 1]);
                                    assert((enc_deps_rest(xs.skip(l + 1)) + (lit_checksum() + rr))[0] == 44);
                                    assert(s@.skip(k2 as int)[0] == 44);
                                } else {
                                    assert(xs.skip(l + 1).len() == 0);
                                    assert(s@.skip(k2 as int) == lit_checksum() + rr);
                                    assert(s@.skip(k2 as int)[0] == lit_checksum()[0]);
                                }
                            }
                        }
                    }
                    return None;
                }
            },
        }
    }
}

/// Parse a comma-separated list of feature-map entries at `i`, ending (exclusively)
/// at the closing token that the following literal begins with.
#[verifier::rlimit(100)]
fn parse_feats(s: &[u8], i: usize) -> (r: Option<(Vec<(Vec<u8>, Vec<Vec<u8>>)>, usize)>)
    requires
        i <= s@.len(),
    ensures
        r matches Some(p) ==> i <= p.1 <= s@.len() && s@.subrange(i as int, p.1 as int) == enc_feats(
            feat_views(p.0@),
        ),
        forall|xs: Seq<(Seq<u8>, Seq<Seq<u8>>)>| #[trigger] starts_with(s@.skip(i as int), enc_feats(xs) + lit_yanked()) ==> (
        r matches Some(p) && feat_views(p.0@) == xs && p.1 == i + enc_feats(xs).len()),
{
    proof {
        assert forall|xs: Seq<(Seq<u8>, Seq<Seq<u8>>)>| #[trigger] starts_with(s@.skip(i as int), enc_feats(xs) + lit_yanked())
            && xs.len() > 0 implies s@.skip(i as int) == enc_feat(xs[0]) + (enc_feats_rest(xs.skip(1)) + (
        lit_yanked() + s@.skip(i + enc_feats(xs).len() + lit_yanked().len()))) by {
            lemma_concat_from_prefix(s@, i as int, enc_feats(xs) + lit_yanked());
            let rr = s@.skip(i + (enc_feats(xs) + lit_yanked()).len());
            assert(s@.skip(i + (enc_feats(xs) + lit_yanked()).len()) =~= s@.skip(i + enc_feats(xs).len() + lit_yanked().len()));
            assert(enc_feat(xs[0])[0] == 34);
            assert((enc_feats(xs) + lit_yanked()) + rr =~= enc_feat(xs[0]) + (enc_feats_rest(xs.skip(1)) + (lit_yanked()
                + s@.skip(i + enc_feats(xs).len() + lit_yanked().len()))));
        }
        assert forall|xs: Seq<(Seq<u8>, Seq<Seq<u8>>)>| #[trigger] starts_with(s@.skip(i as int), enc_feats(xs) + lit_yanked())
            && xs.len() == 0 implies s@.skip(i as int) == lit_yanked() + s@.skip(
            i + enc_feats(xs).len() + lit_yanked().len(),
        ) by {
            lemma_concat_from_prefix(s@, i as int, enc_feats(xs) + lit_yanked());
            let rr = s@.skip(i + (enc_feats(xs) + lit_yanked()).len());
            assert(s@.skip(i + (enc_feats(xs) + lit_yanked()).len()) =~= s@.skip(i + enc_feats(xs).len() + lit_yanked().len()));
            assert((enc_feats(xs) + lit_yanked()) + rr =~= lit_yanked() + s@.skip(i + enc_feats(xs).len() + lit_yanked().len()));
        }
    }
    if i >= s.len() {
        proof {
            assert forall|xs: Seq<(Seq<u8>, Seq<Seq<u8>>)>| !(#[trigger] starts_with(
                s@.skip(i as int),
                enc_feats(xs) + lit_yanked(),
            )) by {
                if starts_with(s@.skip(i as int), enc_feats(xs) + lit_yanked()) {
                    assert(s@.skip(i as int).len() >= lit_yanked().len());
                }
            }
        }
        return None;
    }
    if s[i] == 125 {
        let out: Vec<(Vec<u8>, Vec<Vec<u8>>)> = Vec::new();
        proof {
            assert forall|xs: Seq<(Seq<u8>, Seq<Seq<u8>>)>| #[trigger] starts_with(
                s@.skip(i as int),
                enc_feats(xs) + lit_yanked(),
            ) implies feat_views(out@) == xs && i == i + enc_feats(xs).len() by {
                if xs.len() > 0 {
                    assert(enc_feat(xs[0])[0] == 34);
                    assert(s@.skip(i as int)[0] == enc_feat(xs[0])[0]);
                    assert(false);
                }
                assert(feat_views(out@) =~= xs);
            }
            assert(feat_views(out@) =~= Seq::<(Seq<u8>, Seq<Seq<u8>>)>::empty());
            assert(s@.subrange(i as int, i as int) =~= enc_feats(feat_views(out@)));
        }
        return Some((out, i));
    }
    let mut acc: Vec<(Vec<u8>, Vec<Vec<u8>>)> = Vec::new();
    let mut k: usize = i;
    proof {
        assert(feat_views(acc@) =~= Seq::<(Seq<u8>, Seq<Seq<u8>>)>::empty());
        assert forall|xs: Seq<(Seq<u8>, Seq<Seq<u8>>)>| #[trigger] starts_with(
            s@.skip(i as int),
            enc_feats(xs) + lit_yanked(),
        ) implies feat_views(acc@).len() < xs.len() && feat_views(acc@) == xs.take(feat_views(acc@).len() as int)
            && s@.skip(k as int) == enc_feat(xs[feat_views(acc@).len() as int]) + (enc_feats_rest(
            xs.skip(feat_views(acc@).len() as int + 1),
        ) + (lit_yanked() + s@.skip(i + enc_feats(xs).len() + lit_yanked().len()))) by {
            if xs.len() == 0 {
                assert(s@.skip(i as int)[0] == lit_yanked()[0]);
                assert(false);
            }
            assert(feat_views(acc@) =~= xs.take(0));
            assert(xs.skip(0int + 1) =~= xs.skip(1));
        }
    }
    loop
        invariant
            i <= k <= s@.len(),
            feat_views(acc@).len() == acc@.len(),
            acc@.len() == 0 ==> k == i,
            acc@.len() > 0 ==> s@.subrange(i as int, k as int) == enc_feats(feat_views(acc@)) + seq![44u8],
            forall|xs: Seq<(Seq<u8>, Seq<Seq<u8>>)>| #[trigger] starts_with(s@.skip(i as int), enc_feats(xs) + lit_yanked())
                ==> acc@.len() < xs.len() && feat_views(acc@) == xs.take(acc@.len() as int) && s@.skip(
                k as int,
            ) == enc_feat(xs[acc@.len() as int]) + (enc_feats_rest(xs.skip(acc@.len() as int + 1)) + (
            lit_yanked() + s@.skip(i + enc_feats(xs).len() + lit_yanked().len()))),
        decreases s@.len() - k,
    {
        let re = parse_feat(s, k);
        match re {
            None => {
                proof {
                    assert forall|xs: Seq<(Seq<u8>, Seq<Seq<u8>>)>| !(#[trigger] starts_with(
                        s@.skip(i as int),
                        enc_feats(xs) + lit_yanked(),
                    )) by {
                        if starts_with(s@.skip(i as int), enc_feats(xs) + lit_yanked()) {
                            lemma_prefix_from_concat(
                                s@,
                                k as int,
                                enc_feat(xs[acc@.len() as int]),
                                enc_feats_rest(xs.skip(acc@.len() as int + 1)) + (lit_yanked() + s@.skip(
                                    i + enc_feats(xs).len() + lit_yanked().len(),
                                )),
                            );
                        }
                    }
                }
                return None;
            },
            Some((v, k2)) => {
                let ghost oldacc = acc@;
                proof {
                    assert forall|xs: Seq<(Seq<u8>, Seq<Seq<u8>>)>| #[trigger] starts_with(
                        s@.skip(i as int),
                        enc_feats(xs) + lit_yanked(),
                    ) implies (v.0@, byte_views(v.1@)) == xs[oldacc.len() as int] && k2 == k + enc_feat(
                        xs[oldacc.len() as int],
                    ).len() && s@.skip(k2 as int) == enc_feats_rest(xs.skip(oldacc.len() as int + 1)) + (
                    lit_yanked() + s@.skip(i + enc_feats(xs).len() + lit_yanked().len())) by {
                        lemma_prefix_from_concat(
                            s@,
                            k as int,
                            enc_feat(xs[oldacc.len() as int]),
                            enc_feats_rest(xs.skip(oldacc.len() as int + 1)) + (lit_yanked() + s@.skip(
                                i + enc_feats(xs).len() + lit_yanked().len(),
                            )),
                        );
                    }
                }
                acc.push(v);
                proof {
                    assert(feat_views(acc@) =~= feat_views(oldacc).push((v.0@, byte_views(v.1@))));
                }
                if k2 >= s.len() {
                    proof {
                        assert forall|xs: Seq<(Seq<u8>, Seq<Seq<u8>>)>| !(#[trigger] starts_with(
                            s@.skip(i as int),
                            enc_feats(xs) + lit_yanked(),
                        )) by {
                            if starts_with(s@.skip(i as int), enc_feats(xs) + lit_yanked()) {
                                assert(s@.skip(k2 as int).len() >= lit_yanked().len());
                            }
                        }
                    }
                    return None;
                }
                let c2 = s[k2];
                if c2 == 44 {
                    proof {
                        assert forall|xs: Seq<(Seq<u8>, Seq<Seq<u8>>)>| #[trigger] starts_with(
                            s@.skip(i as int),
                            enc_feats(xs) + lit_yanked(),
                        ) implies acc@.len() < xs.len() && feat_views(acc@) == xs.take(acc@.len() as int)
                            && s@.skip(k2 as int + 1) == enc_feat(xs[acc@.len() as int]) + (enc_feats_rest(
                            xs.skip(acc@.len() as int + 1),
                        ) + (lit_yanked() + s@.skip(i + enc_feats(xs).len() + lit_yanked().len()))) by {
                            let l = oldacc.len() as int;
                            let rr = s@.skip(i + enc_feats(xs).len() + lit_yanked().len());
                            if xs.len() == l + 1 {
                                assert(xs.skip(l + 1).len() == 0);
                                assert(s@.skip(k2 as int) == lit_yanked() + rr);
                                assert(s@.skip(k2 as int)[0] == lit_yanked()[0]);
                                assert(false);
                            }
                            assert(xs.skip(l + 1).len() > 0);
                            assert(xs.skip(l + 1)[0] == xs[l + 1]);
                            assert(xs.skip(l + 1).skip(1) =~= xs.skip(l + 2));
                            assert(enc_feats_rest(xs.skip(l + 1)) + (lit_yanked() + rr) =~= seq![44u8] + (
                            enc_feat(xs[l + 1]) + (enc_feats_rest(xs.skip(l + 2)) + (lit_yanked() + rr))));
                            lemma_skip_split(
                                s@,
                                k2 as int,
                                seq![44u8],
                                enc_feat(xs[l + 1]) + (enc_feats_rest(xs.skip(l + 2)) + (lit_yanked() + rr)),
                            );
                            assert(feat_views(acc@) =~= xs.take(l + 1)) by {
                                assert(xs.take(l + 1) =~= xs.take(l).push(xs[l]));
                            }
                        }
                        lemma_enc_feats_snoc(feat_views(oldacc), (v.0@, byte_views(v.1@)));
                        if oldacc.len() == 0 {
                            assert(s@.subrange(i as int, k2 as int + 1) =~= enc_feats(feat_views(acc@))
                                + seq![44u8]) by {
                                assert(s@.subrange(k as int, k2 as int) == enc_feat((v.0@, byte_views(v.1@))));
                                assert(s@.subrange(i as int, k2 as int + 1) =~= s@.subrange(
                                    k as int,
                                    k2 as int,
                                ) + seq![s@[k2 as int]]);
                            }
                        } else {
                            assert(s@.subrange(i as int, k2 as int + 1) =~= enc_feats(feat_views(acc@))
                                + seq![44u8]) by {
                                assert(s@.subrange(k as int, k2 as int) == enc_feat((v.0@, byte_views(v.1@))));
                                assert(s@.subrange(i as int, k2 as int + 1) =~= s@.subrange(
                                    i as int,
                                    k as int,
                                ) + s@.subrange(k as int, k2 as int) + seq![s@[k2 as int]]);
                            }
                        }
                    }
                    k = k2 + 1;
                } else if c2 == 125 {
                    proof {
                        assert forall|xs: Seq<(Seq<u8>, Seq<Seq<u8>>)>| #[trigger] starts_with(
                            s@.skip(i as int),
                            enc_feats(xs) + lit_yanked(),
                        ) implies feat_views(acc@) == xs && k2 == i + enc_feats(xs).len() by {
                            let l = oldacc.len() as int;
                            let rr = s@.skip(i + enc_feats(xs).len() + lit_yanked().len());
                            if xs.len() > l + 1 {
                                assert(xs.skip(l + 1).len() > 0);
                                assert(xs.skip(l + 1)[0] == xs[l + 1]);
                                assert((enc_feats_rest(xs.skip(l + 1)) + (lit_yanked() + rr))[0] == 44);
                                assert(s@.skip(k2 as int)[0] == 44);
                                assert(false);
                            }
                            assert(xs.len() == l + 1);
                            assert(xs.skip(l + 1).len() == 0);
                            assert(s@.skip(k2 as int) == lit_yanked() + rr);
                            assert(s@.skip(k2 as int).len() == lit_yanked().len() + rr.len());
                            assert(feat_views(acc@) =~= xs) by {
                                assert(xs.take(l + 1) =~= xs.take(l).push(xs[l]));
                                assert(xs.take(l + 1) =~= xs);
                            }
                        }
                        lemma_enc_feats_snoc(feat_views(oldacc), (v.0@, byte_views(v.1@)));
                        if oldacc.len() == 0 {
                            assert(s@.subrange(i as int, k2 as int) =~= enc_feats(feat_views(acc@))) by {
                                assert(s@.subrange(k as int, k2 as int) == enc_feat((v.0@, byte_views(v.1@))));
                                assert(s@.subrange(i as int, k2 as int) =~= s@.subrange(
                                    k as int,
                                    k2 as int,
                                ));
                            }
                        } else {
                            assert(s@.subrange(i as int, k2 as int) =~= enc_feats(feat_views(acc@))) by {
                                assert(s@.subrange(k as int, k2 as int) == enc_feat((v.0@, byte_views(v.1@))));
                                assert(s@.subrange(i as int, k2 as int) =~= s@.subrange(
                                    i as int,
                                    k as int,
                                ) + s@.subrange(k as int, k2 as int));
                            }
                        }
                    }
                    return Some((acc, k2));
                } else {
                    proof {
                        assert forall|xs: Seq<(Seq<u8>, Seq<Seq<u8>>)>| !(#[trigger] starts_with(
                            s@.skip(i as int),
                            enc_feats(xs) + lit_yanked(),
                        )) by {
                            if starts_with(s@.skip(i as int), enc_feats(xs) + lit_yanked()) {
                                let l = oldacc.len() as int;
                                let rr = s@.skip(i + enc_feats(xs).len() + lit_yanked().len());
                                if xs.len() > l + 1 {
                                    assert(xs.skip(l + 1).len() > 0);
                                    assert(xs.skip(l + 1)[0] == xs[l + 1]);
                                    assert((enc_feats_rest(xs.skip(l + 1)) + (lit_yanked() + rr))[0] == 44);
                                    assert(s@.skip(k2 as int)[0] == 44);
                                } else {
                                    assert(xs.skip(l + 1).len() == 0);
                                    assert(s@.skip(k2 as int) == lit_yanked() + rr);
                                    assert(s@.skip(k2 as int)[0] == lit_yanked()[0]);
                                }
                            }
                        }
                    }
                    return None;
                }
            },
        }
    }
}

/// Parse one feature-map entry at `i`: name, colon, feature list.
#[verifier::rlimit(100)]
fn parse_feat(s: &[u8], i: usize) -> (r: Option<((Vec<u8>, Vec<Vec<u8>>), usize)>)
    requires
        i <= s@.len(),
    ensures
        r matches Some(p) ==> i < p.1 <= s@.len() && s@.subrange(i as int, p.1 as int) == enc_feat(
            (p.0.0@, byte_views(p.0.1@)),
        ),
        forall|fm: (Seq<u8>, Seq<Seq<u8>>)| #[trigger] starts_with(s@.skip(i as int), enc_feat(fm))
            ==> (r matches Some(p) && (p.0.0@, byte_views(p.0.1@)) == fm && p.1 == i + enc_feat(
            fm,
        ).len()),
{
    proof {
        assert forall|fm: (Seq<u8>, Seq<Seq<u8>>)| #[trigger] starts_with(
            s@.skip(i as int),
            enc_feat(fm),
        ) implies s@.skip(i as int) == enc_str(fm.0) + (seq![58u8] + (enc_str_array(fm.1) + s@.skip(
            i + enc_feat(fm).len(),
        ))) by {
            lemma_concat_from_prefix(s@, i as int, enc_feat(fm));
            let rr = s@.skip(i + enc_feat(fm).len());
            assert(enc_feat(fm) + rr =~= enc_str(fm.0) + (seq![58u8] + (enc_str_array(fm.1) + rr)));
        }
    }
    let rname = parse_string(s, i);
    let (name, j1) = match rname {
        Some(p) => p,
        None => {
            proof {
                assert forall|fm: (Seq<u8>, Seq<Seq<u8>>)| !(#[trigger] starts_with(
                    s@.skip(i as int),
                    enc_feat(fm),
                )) by {
                    if starts_with(s@.skip(i as int), enc_feat(fm)) {
                        lemma_prefix_from_concat(
                            s@,
                            i as int,
                            enc_str(fm.0),
                            seq![58u8] + (enc_str_array(fm.1) + s@.skip(i + enc_feat(fm).len())),
                        );
                    }
                }
            }
            return None;
        },
    };
    proof {
        assert forall|fm: (Seq<u8>, Seq<Seq<u8>>)| #[trigger] starts_with(
            s@.skip(i as int),
            enc_feat(fm),
        ) implies name@ == fm.0 && s@.skip(j1 as int) == seq![58u8] + (enc_str_array(fm.1) + s@
            .skip(i + enc_feat(fm).len())) by {
            lemma_prefix_from_concat(
                s@,
                i as int,
                enc_str(fm.0),
                seq![58u8] + (enc_str_array(fm.1) + s@.skip(i + enc_feat(fm).len())),
            );
            lemma_consume(
                s@,
                i as int,
                j1 as int,
                enc_str(fm.0),
                seq![58u8] + (enc_str_array(fm.1) + s@.skip(i + enc_feat(fm).len())),
            );
        }
    }
    if j1 >= s.len() || s[j1] != 58 {
        proof {
            assert forall|fm: (Seq<u8>, Seq<Seq<u8>>)| !(#[trigger] starts_with(
                s@.skip(i as int),
                enc_feat(fm),
            )) by {
                if starts_with(s@.skip(i as int), enc_feat(fm)) {
                    assert(s@.skip(j1 as int)[0] == 58);
                }
            }
        }
        return None;
    }
    proof {
        assert forall|fm: (Seq<u8>, Seq<Seq<u8>>)| #[trigger] starts_with(
            s@.skip(i as int),
            enc_feat(fm),
        ) implies s@.skip(j1 as int + 1) == enc_str_array(fm.1) + s@.skip(
            i + enc_feat(fm).len(),
        ) by {
            lemma_skip_split(
                s@,
                j1 as int,
                seq![58u8],
                enc_str_array(fm.1) + s@.skip(i + enc_feat(fm).len()),
            );
        }
    }
    let rvals = parse_str_array(s, j1 + 1);
    let (vals, j2) = match rvals {
        Some(p) => p,
        None => {
            proof {
                assert forall|fm: (Seq<u8>, Seq<Seq<u8>>)| !(#[trigger] starts_with(
                    s@.skip(i as int),
                    enc_feat(fm),
                )) by {
                    if starts_with(s@.skip(i as int), enc_feat(fm)) {
                        lemma_prefix_from_concat(
                            s@,
                            j1 as int + 1,
                            enc_str_array(fm.1),
                            s@.skip(i + enc_feat(fm).len()),
                        );
                    }
                }
            }
            return None;
        },
    };
    proof {
        lemma_subrange_concat(s@, i as int, j1 as int, j1 as int + 1);
        lemma_subrange_concat(s@, i as int, j1 as int + 1, j2 as int);
        assert(s@.subrange(j1 as int, j1 as int + 1) =~= seq![58u8]);
        assert(s@.subrange(i as int, j2 as int) =~= enc_feat((name@, byte_views(vals@))));
        assert forall|fm: (Seq<u8>, Seq<Seq<u8>>)| #[trigger] starts_with(
            s@.skip(i as int),
            enc_feat(fm),
        ) implies (name@, byte_views(vals@)) == fm && j2 == i + enc_feat(fm).len() by {
            lemma_prefix_from_concat(
                s@,
                j1 as int + 1,
                enc_str_array(fm.1),
                s@.skip(i + enc_feat(fm).len()),
            );
            assert((name@, byte_views(vals@)) =~= fm);
        }
    }
    Some(((name, vals), j2))
}

/// A line body with one trailing newline removed, if present.
pub open spec fn strip_nl(c: Seq<u8>) -> Seq<u8> {
    if c.len() > 0 && c.last() == 10 {
        c.drop_last()
    } else {
        c
    }
}

/// Parse a whole byte string as one canonical record object. The contract is
/// the codec round trip: whatever parses re-encodes byte for byte to the
/// input, and the encoding of every record parses back to that record.
pub fn parse_record(s: &[u8]) -> (r: Option<PackageVersionRecord>)
    ensures
        r matches Some(rec) ==> enc_record(rec@) == s@,
        forall|m: RecordModel| s@ == enc_record(m) ==> (r matches Some(rec) && rec@ == m),
{
    let ra = parse_record_at(s, 0);
    match ra {
        Some((rec, j)) => {
            if j == s.len() {
                proof {
                    assert(s@.subrange(0, s@.len() as int) =~= s@);
                    assert forall|m: RecordModel| s@ == enc_record(m) implies rec@ == m by {
                        assert(s@.skip(0) =~= s@);
                        assert(starts_with(s@.skip(0), enc_record(m))) by {
                            assert(s@.skip(0).subrange(0, enc_record(m).len() as int) =~= s@);
                        }
                    }
                }
                Some(rec)
            } else {
                proof {
                    assert forall|m: RecordModel| s@ != enc_record(m) by {
                        if s@ == enc_record(m) {
                            assert(s@.skip(0) =~= s@);
                            assert(starts_with(s@.skip(0), enc_record(m))) by {
                                assert(s@.skip(0).subrange(0, enc_record(m).len() as int) =~= s@);
                            }
                        }
                    }
                }
                None
            }
        },
        None => {
            proof {
                assert forall|m: RecordModel| s@ != enc_record(m) by {
                    if s@ == enc_record(m) {
                        assert(s@.skip(0) =~= s@);
                        assert(starts_with(s@.skip(0), enc_record(m))) by {
                            assert(s@.skip(0).subrange(0, enc_record(m).len() as int) =~= s@);
                        }
                    }
                }
            }
            None
        },
    }
}

/// Parse one diff line as a record payload: one trailing newline is
/// tolerated, the rest must be exactly one canonical record object.
pub fn parse_line(line: &[u8]) -> (r: Option<PackageVersionRecord>)
    ensures
        r matches Some(rec) ==> enc_record(rec@) == strip_nl(line@),
        forall|m: RecordModel| strip_nl(line@) == enc_record(m) ==> (r matches Some(rec) && rec@
            == m),
{
    if line.len() > 0 && line[line.len() - 1] == 10 {
        let body = vstd::slice::slice_subrange(line, 0, line.len() - 1);
        proof {
            assert(body@ =~= strip_nl(line@));
        }
        parse_record(body)
    } else {
        proof {
            assert(line@ == strip_nl(line@));
        }
        parse_record(line)
    }
}

} // verus!
