//! The record file format.
//!
//! A record file's content is its bucket's entries one after another:
//! each entry is the key's length, the key, the value's length and the
//! value, with both lengths written as fixed-width decimal numerals of
//! [`LEN_DIGITS`] digits. Nothing else appears in the file, so a record
//! written for a bucket parses back to exactly that bucket, and content
//! that does not parse is recognizably corrupt instead of being read as
//! someone else's value.

use crate::numeral::{
    all_digits, fixed_decimal, fixed_digits, numeral_val, parse_fixed, LEN_DIGITS,
};
use crate::numeral::lemma_fixed_digits_roundtrip;
use crate::record::{views_of, Entry};
use vstd::prelude::*;
use vstd::string::StrSliceExecFns;
use vstd::string::StringExecFns;

verus! {

/// The encoding of one entry: each length as a fixed-width decimal,
/// followed by the text itself.
pub open spec fn encode_entry(k: Seq<char>, v: Seq<char>) -> Seq<char> {
    fixed_digits(k.len(), LEN_DIGITS as nat) + k + fixed_digits(v.len(), LEN_DIGITS as nat) + v
}

/// The encoding of a bucket: its entries' encodings concatenated.
pub open spec fn encode_bucket_views(vs: Seq<(Seq<char>, Seq<char>)>) -> Seq<char>
    decreases vs.len(),
{
    if vs.len() == 0 {
        Seq::empty()
    } else {
        encode_entry(vs[0].0, vs[0].1) + encode_bucket_views(vs.drop_first())
    }
}

/// Every text of every pair has a length a length field can carry.
pub open spec fn bounded_pairs(vs: Seq<(Seq<char>, Seq<char>)>) -> bool {
    forall|i: int|
        0 <= i < vs.len() ==> (#[trigger] vs[i]).0.len() <= u64::MAX && vs[i].1.len() <= u64::MAX
}

/// The first entry encoded at the head of `s`, and what follows it, if
/// `s` starts with a well-formed entry.
pub open spec fn parse_entry(s: Seq<char>) -> Option<((Seq<char>, Seq<char>), Seq<char>)> {
    if s.len() < LEN_DIGITS as int {
        None
    } else {
        let kd = s.take(LEN_DIGITS as int);
        if !all_digits(kd) {
            None
        } else {
            let klen = numeral_val(kd);
            if s.len() < LEN_DIGITS as int + klen {
                None
            } else {
                let k = s.subrange(LEN_DIGITS as int, LEN_DIGITS as int + klen);
                let rest1 = s.skip(LEN_DIGITS as int + klen);
                if rest1.len() < LEN_DIGITS as int {
                    None
                } else {
                    let vd = rest1.take(LEN_DIGITS as int);
                    if !all_digits(vd) {
                        None
                    } else {
                        let vlen = numeral_val(vd);
                        if rest1.len() < LEN_DIGITS as int + vlen {
                            None
                        } else {
                            let v = rest1.subrange(LEN_DIGITS as int, LEN_DIGITS as int + vlen);
                            Some(((k, v), rest1.skip(LEN_DIGITS as int + vlen)))
                        }
                    }
                }
            }
        }
    }
}

/// The bucket a record file's content encodes: a run of entries with
/// nothing left over, or nothing if the content is malformed.
pub open spec fn parse_bucket(s: Seq<char>) -> Option<Seq<(Seq<char>, Seq<char>)>>
    decreases s.len(),
{
    if s.len() == 0 {
        Some(Seq::empty())
    } else {
        match parse_entry(s) {
            None => None,
            Some((kv, rest)) => {
                // An entry consumes at least its two length fields, so
                // this branch never holds; it makes termination evident.
                if rest.len() >= s.len() {
                    None
                } else {
                    match parse_bucket(rest) {
                        None => None,
                        Some(tail) => Some(seq![kv] + tail),
                    }
                }
            },
        }
    }
}

/// Decoding inverts encoding: a record file written for a bucket parses
/// back to exactly that bucket.
pub proof fn lemma_codec_roundtrip(vs: Seq<(Seq<char>, Seq<char>)>)
    requires
        bounded_pairs(vs),
    ensures
        parse_bucket(encode_bucket_views(vs)) == Some(vs),
    decreases vs.len(),
{
    if vs.len() == 0 {
        assert(parse_bucket(encode_bucket_views(vs)) == Some(Seq::<(Seq<char>, Seq<char>)>::empty()));
        assert(Seq::<(Seq<char>, Seq<char>)>::empty() =~= vs);
    } else {
        let k = vs[0].0;
        let v = vs[0].1;
        let fdk = fixed_digits(k.len(), LEN_DIGITS as nat);
        let fdv = fixed_digits(v.len(), LEN_DIGITS as nat);
        let e = encode_entry(k, v);
        let tail = encode_bucket_views(vs.drop_first());
        let s = encode_bucket_views(vs);
        assert(s == e + tail);
        lemma_fixed_digits_roundtrip(k.len() as u64);
        lemma_fixed_digits_roundtrip(v.len() as u64);
        assert(fdk.len() == LEN_DIGITS && fdv.len() == LEN_DIGITS);
        assert(e.len() == 2 * LEN_DIGITS + k.len() + v.len());
        assert(s.take(LEN_DIGITS as int) =~= fdk);
        assert(numeral_val(fdk) == k.len());
        assert(s.subrange(LEN_DIGITS as int, LEN_DIGITS as int + k.len()) =~= k);
        let rest1 = s.skip(LEN_DIGITS as int + k.len());
        assert(rest1 =~= fdv + v + tail);
        assert(rest1.take(LEN_DIGITS as int) =~= fdv);
        assert(numeral_val(fdv) == v.len());
        assert(rest1.subrange(LEN_DIGITS as int, LEN_DIGITS as int + v.len()) =~= v);
        let rest = rest1.skip(LEN_DIGITS as int + v.len());
        assert(rest =~= tail);
        assert(parse_entry(s) == Some(((k, v), tail)));
        assert(tail.len() < s.len());
        assert(bounded_pairs(vs.drop_first())) by {
            assert(forall|i: int|
                0 <= i < vs.drop_first().len() ==> #[trigger] vs.drop_first()[i] == vs[i + 1]);
        }
        lemma_codec_roundtrip(vs.drop_first());
        assert(seq![vs[0]] + vs.drop_first() =~= vs);
        assert(parse_bucket(s) == Some(vs));
    }
}

/// Writes a bucket out in the record file format.
pub fn encode_bucket(b: &Vec<Entry>) -> (r: String)
    ensures
        r@ == encode_bucket_views(views_of(b@)),
        bounded_pairs(views_of(b@)),
{
    let ghost vs = views_of(b@);
    let mut r = String::new();
    let mut i: usize = 0;
    proof {
        assert(vs.skip(0) =~= vs);
        assert(r@ + encode_bucket_views(vs) =~= encode_bucket_views(vs));
    }
    while i < b.len()
        invariant
            i <= b@.len(),
            vs == views_of(b@),
            r@ + encode_bucket_views(vs.skip(i as int)) =~= encode_bucket_views(vs),
            forall|j: int|
                0 <= j < i ==> (#[trigger] vs[j]).0.len() <= u64::MAX && vs[j].1.len()
                    <= u64::MAX,
        decreases b@.len() - i,
    {
        let ghost r_old = r@;
        let klen = b[i].key.as_str().unicode_len();
        let kd = fixed_decimal(klen as u64, LEN_DIGITS);
        r.append(kd.as_str());
        r.append(b[i].key.as_str());
        let vlen = b[i].value.as_str().unicode_len();
        let vd = fixed_decimal(vlen as u64, LEN_DIGITS);
        r.append(vd.as_str());
        r.append(b[i].value.as_str());
        proof {
            assert(vs[i as int] == (b@[i as int].key@, b@[i as int].value@));
            assert(r@ =~= r_old + encode_entry(vs[i as int].0, vs[i as int].1));
            assert(vs.skip(i as int)[0] == vs[i as int]);
            assert(vs.skip(i as int).drop_first() =~= vs.skip(i + 1));
            assert(encode_bucket_views(vs.skip(i as int)) == encode_entry(
                vs[i as int].0,
                vs[i as int].1,
            ) + encode_bucket_views(vs.skip(i + 1)));
            assert(r@ + encode_bucket_views(vs.skip(i + 1)) =~= r_old + encode_bucket_views(
                vs.skip(i as int),
            ));
        }
        i = i + 1;
    }
    proof {
        assert(vs.skip(vs.len() as int) =~= Seq::<(Seq<char>, Seq<char>)>::empty());
        assert(r@ =~= encode_bucket_views(vs));
    }
    r
}

/// Reads a record file's content back into its bucket of entries:
/// exactly the parse of the content, `None` on any malformed content.
pub fn decode_bucket(content: &str) -> (r: Option<Vec<Entry>>)
    ensures
        match r {
            Some(entries) => parse_bucket(content@) == Some(views_of(entries@)),
            None => parse_bucket(content@) is None,
        },
{
    let n = content.unicode_len();
    let mut out: Vec<Entry> = Vec::new();
    let mut pos: usize = 0;
    proof {
        assert(content@.skip(0) =~= content@);
        assert(views_of(out@) =~= Seq::<(Seq<char>, Seq<char>)>::empty());
    }
    while pos < n
        invariant
            pos <= n,
            n == content@.len(),
            match parse_bucket(content@.skip(pos as int)) {
                Some(tail) => parse_bucket(content@) == Some(views_of(out@) + tail),
                None => parse_bucket(content@) is None,
            },
        decreases n - pos,
    {
        let ghost suffix = content@.skip(pos as int);
        proof {
            assert(suffix.len() == n - pos);
        }
        if n - pos < LEN_DIGITS {
            proof {
                assert(parse_entry(suffix) is None);
                assert(parse_bucket(suffix) is None);
            }
            return None;
        }
        let ghost kd = suffix.take(LEN_DIGITS as int);
        proof {
            assert(kd =~= content@.subrange(pos as int, pos + LEN_DIGITS));
        }
        let klen_parsed = parse_fixed(content, pos, LEN_DIGITS);
        if klen_parsed.is_none() {
            proof {
                assert(suffix.len() <= u64::MAX);
                assert(parse_entry(suffix) is None);
                assert(parse_bucket(suffix) is None);
            }
            return None;
        }
        let klen_u = klen_parsed.unwrap();
        proof {
            assert(numeral_val(kd) == klen_u);
        }
        if klen_u > ((n - pos) - LEN_DIGITS) as u64 {
            proof {
                assert(suffix.len() < LEN_DIGITS as int + numeral_val(kd));
                assert(parse_entry(suffix) is None);
                assert(parse_bucket(suffix) is None);
            }
            return None;
        }
        let klen = klen_u as usize;
        let key_part = content.substring_char(pos + LEN_DIGITS, pos + LEN_DIGITS + klen);
        let pos2 = pos + LEN_DIGITS + klen;
        let ghost rest1 = suffix.skip(LEN_DIGITS as int + klen);
        proof {
            assert(rest1 =~= content@.skip(pos2 as int));
            assert(key_part@ =~= suffix.subrange(LEN_DIGITS as int, LEN_DIGITS as int + klen));
        }
        if n - pos2 < LEN_DIGITS {
            proof {
                assert(parse_entry(suffix) is None);
                assert(parse_bucket(suffix) is None);
            }
            return None;
        }
        let ghost vd = rest1.take(LEN_DIGITS as int);
        proof {
            assert(vd =~= content@.subrange(pos2 as int, pos2 + LEN_DIGITS));
        }
        let vlen_parsed = parse_fixed(content, pos2, LEN_DIGITS);
        if vlen_parsed.is_none() {
            proof {
                assert(rest1.len() <= u64::MAX);
                assert(parse_entry(suffix) is None);
                assert(parse_bucket(suffix) is None);
            }
            return None;
        }
        let vlen_u = vlen_parsed.unwrap();
        proof {
            assert(numeral_val(vd) == vlen_u);
        }
        if vlen_u > ((n - pos2) - LEN_DIGITS) as u64 {
            proof {
                assert(rest1.len() < LEN_DIGITS as int + numeral_val(vd));
                assert(parse_entry(suffix) is None);
                assert(parse_bucket(suffix) is None);
            }
            return None;
        }
        let vlen = vlen_u as usize;
        let val_part = content.substring_char(pos2 + LEN_DIGITS, pos2 + LEN_DIGITS + vlen);
        let pos3 = pos2 + LEN_DIGITS + vlen;
        let ghost rest = rest1.skip(LEN_DIGITS as int + vlen);
        proof {
            assert(rest =~= content@.skip(pos3 as int));
            assert(val_part@ =~= rest1.subrange(LEN_DIGITS as int, LEN_DIGITS as int + vlen));
            assert(parse_entry(suffix) == Some(((key_part@, val_part@), rest)));
            assert(rest.len() < suffix.len());
        }
        let e = Entry { key: String::from_str(key_part), value: String::from_str(val_part) };
        let ghost out_old = out@;
        out.push(e);
        proof {
            assert(views_of(out@) =~= views_of(out_old).push((key_part@, val_part@)));
            if parse_bucket(rest) is Some {
                let t = parse_bucket(rest)->Some_0;
                assert(parse_bucket(suffix) == Some(seq![(key_part@, val_part@)] + t));
                assert(views_of(out_old) + (seq![(key_part@, val_part@)] + t) =~= views_of(out@)
                    + t);
            } else {
                assert(parse_bucket(suffix) is None);
            }
        }
        pos = pos3;
    }
    proof {
        assert(content@.skip(pos as int).len() == 0);
        assert(parse_bucket(content@.skip(pos as int)) == Some(Seq::<(Seq<char>, Seq<char>)>::empty()));
        assert(views_of(out@) + Seq::<(Seq<char>, Seq<char>)>::empty() =~= views_of(out@));
    }
    Some(out)
}

} // verus!
