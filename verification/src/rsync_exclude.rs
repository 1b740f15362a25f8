//! The exclusion-rule exchange: each rule travels as a 32-bit little-endian
//! byte length and its text; a zero length ends the list.

use vstd::prelude::*;
use vstd::utf8::{valid_utf8, decode_utf8, encode_utf8};
use crate::error::RsyncError;
use crate::stream::{le_bytes_n, le_val, remaining, sign_extend, written, ByteBuffer};
use crate::text::string_from_bytes;

verus! {

/// The exclusion rules one side sends the other.
#[derive(Debug)]
pub struct ExcludeList {
    pub rules: Vec<String>,
}

/// The wire form of the rules from position `i` on, terminator included.
pub open spec fn exclude_encode_from(rules: Seq<String>, i: int) -> Seq<u8>
    decreases rules.len() - i,
{
    if 0 <= i < rules.len() {
        le_bytes_n(encode_utf8(rules[i]@).len() as int, 4) + encode_utf8(rules[i]@)
            + exclude_encode_from(rules, i + 1)
    } else {
        le_bytes_n(0, 4)
    }
}

/// The wire form of the rules, terminator included.
pub open spec fn exclude_encode(rules: Seq<String>) -> Seq<u8> {
    exclude_encode_from(rules, 0)
}

/// Every tail encoding still carries at least its terminator.
proof fn lemma_exclude_from_min(rules: Seq<String>, i: int)
    ensures
        exclude_encode_from(rules, i).len() >= 4,
    decreases rules.len() - i,
{
    crate::stream::lemma_le_bytes_len(0, 4);
    if 0 <= i < rules.len() {
        crate::stream::lemma_le_bytes_len(encode_utf8(rules[i]@).len() as int, 4);
        lemma_exclude_from_min(rules, i + 1);
    }
}

/// Parses a rule list: the rule texts (skipping any that are not UTF-8) and
/// the bytes consumed.  A zero or implausible length ends the list, as on
/// the sending side only a zero does.
pub open spec fn parse_excludes(s: Seq<u8>) -> Option<(Seq<Seq<char>>, int)>
    decreases s.len(),
{
    if s.len() < 4 {
        None
    } else {
        let len = sign_extend(le_val(s.take(4)), 0x1_0000_0000);
        if len == 0 || len < 0 || len > 0x100000 {
            Some((Seq::empty(), 4))
        } else {
            if s.len() < 4 + len {
                None
            } else {
                let bytes = s.subrange(4, 4 + len);
                match parse_excludes(s.skip(4 + len)) {
                    None => None,
                    Some(pair) => Some(((if valid_utf8(bytes) {
                        seq![decode_utf8(bytes)]
                    } else {
                        Seq::empty()
                    }) + pair.0, 4 + len + pair.1)),
                }
            }
        }
    }
}

/// The rule texts of a list.
pub open spec fn rule_views(rules: Seq<String>) -> Seq<Seq<char>> {
    rules.map_values(|r: String| r@)
}

impl ExcludeList {
    pub fn new() -> (r: Self)
        ensures
            r.rules@ == Seq::<String>::empty(),
    {
        Self { rules: Vec::new() }
    }

    /// Writes every rule and the terminator.
    pub fn send(&self, writer: &mut ByteBuffer) -> (r: Result<(), RsyncError>)
        requires
            forall|i: int| 0 <= i < self.rules@.len()
                ==> encode_utf8((#[trigger] self.rules@[i])@).len() <= 0x10_0000,
            old(writer).pos + exclude_encode(self.rules@).len() <= usize::MAX,
        ensures
            r is Ok,
            final(writer).data@ == written(
                old(writer).data@, old(writer).pos as int, exclude_encode(self.rules@)),
            final(writer).pos == old(writer).pos + exclude_encode(self.rules@).len(),
    {
        let ghost d0 = writer.data@;
        let ghost p0 = writer.pos as int;
        let n = self.rules.len();
        let mut i: usize = 0;
        let ghost mut done: Seq<u8> = Seq::empty();
        let empty_pad: Vec<u8> = Vec::new();
        writer.write_bytes(empty_pad.as_slice());
        proof {
            assert(done + exclude_encode_from(self.rules@, 0) =~= exclude_encode(
                self.rules@));
        }
        while i < n
            invariant
                n == self.rules@.len(),
                0 <= i <= n,
                forall|k: int| 0 <= k < self.rules@.len()
                    ==> encode_utf8((#[trigger] self.rules@[k])@).len() <= 0x10_0000,
                p0 + exclude_encode(self.rules@).len() <= usize::MAX,
                0 <= p0,
                done + exclude_encode_from(self.rules@, i as int)
                    == exclude_encode(self.rules@),
                writer.data@ == written(d0, p0, done),
                writer.pos == p0 + done.len(),
            decreases n - i,
        {
            let ghost before = done;
            proof {
                lemma_exclude_from_min(self.rules@, i + 1);
            }
            let rule = &self.rules[i];
            let rule_bytes = rule.as_str().as_bytes();
            let len = rule_bytes.len();
            proof {
                crate::stream::lemma_le_bytes_len(len as int, 4);
                crate::stream::lemma_pow256_values();
                vstd::arithmetic::div_mod::lemma_small_mod(len as nat, 0x1_0000_0000);
            }
            let header = crate::stream::to_le_bytes(len as u64, 4);
            writer.write_bytes(header.as_slice());
            writer.write_bytes(rule_bytes);
            proof {
                crate::stream::lemma_written_append(d0, p0, before,
                    le_bytes_n(len as int, 4));
                crate::stream::lemma_written_append(d0, p0,
                    before + le_bytes_n(len as int, 4), encode_utf8(rule@));
                done = before + le_bytes_n(len as int, 4) + encode_utf8(rule@);
                assert(done + exclude_encode_from(self.rules@, i + 1)
                    =~= before + exclude_encode_from(self.rules@, i as int));
            }
            i = i + 1;
        }
        proof {
            crate::stream::lemma_le_bytes_len(0, 4);
        }
        let terminator = crate::stream::to_le_bytes(0, 4);
        writer.write_bytes(terminator.as_slice());
        proof {
            crate::stream::lemma_written_append(d0, p0, done, le_bytes_n(0, 4));
            assert(done + le_bytes_n(0, 4) =~= exclude_encode(self.rules@));
        }
        Ok(())
    }

    /// Reads rules until the terminator, skipping any whose bytes are not
    /// UTF-8; an implausible length ends the list like the terminator.
    pub fn recv(reader: &mut ByteBuffer) -> (r: Result<Self, RsyncError>)
        ensures
            final(reader).data == old(reader).data,
            match parse_excludes(remaining(*old(reader))) {
                None => r is Err,
                Some(pair) => r matches Ok(v) && rule_views(v.rules@) == pair.0
                    && final(reader).pos == old(reader).pos + pair.1,
            },
    {
        let ghost rem0 = remaining(*old(reader));
        let mut rules: Vec<String> = Vec::new();
        proof {
            assert(rule_views(rules@) =~= Seq::<Seq<char>>::empty());
        }
        loop
            invariant
                rem0 == remaining(*old(reader)),
                reader.data == old(reader).data,
                old(reader).pos <= reader.pos,
                match parse_excludes(remaining(*reader)) {
                    None => parse_excludes(rem0) is None,
                    Some(tail) => {
                        match parse_excludes(rem0) {
                            None => false,
                            Some(all) => all.0 == rule_views(rules@) + tail.0
                                && all.1 == (reader.pos - old(reader).pos) + tail.1,
                        }
                    },
                },
            decreases remaining(*reader).len(),
        {
            let ghost rem_i = remaining(*reader);
            let ghost prev_pos = reader.pos as int;
            let header = match reader.read_exact_bytes(4) {
                Ok(v) => v,
                Err(e) => {
                    return Err(e);
                }
            };
            proof {
                crate::stream::lemma_le_val_bound(header@);
                crate::stream::lemma_pow256_values();
                assert(header@ =~= rem_i.take(4));
                assert(remaining(*reader) =~= rem_i.skip(4));
            }
            let raw = crate::stream::le_value(header.as_slice());
            let len_signed: i64 = if raw >= 0x8000_0000 {
                (raw as i64) - 0x1_0000_0000
            } else {
                raw as i64
            };
            if len_signed == 0 || len_signed < 0 || len_signed > 0x10_0000 {
                proof {
                    assert(rem_i.len() >= 4);
                    assert(raw == le_val(rem_i.take(4)));
                    assert(len_signed as int == sign_extend(le_val(rem_i.take(4)),
                        0x1_0000_0000));
                    assert(parse_excludes(rem_i) == Some((Seq::<Seq<char>>::empty(), 4int)));
                    assert(rule_views(rules@) + Seq::<Seq<char>>::empty()
                        =~= rule_views(rules@));
                    assert(reader.pos == prev_pos + 4);
                }
                return Ok(Self { rules });
            }
            let len = len_signed as usize;
            let bytes = match reader.read_exact_bytes(len) {
                Ok(v) => v,
                Err(e) => {
                    return Err(e);
                }
            };
            proof {
                assert(rem_i.skip(4).len() >= len);
                assert(rem_i.len() >= 4 + len);
                assert(bytes@ =~= rem_i.subrange(4, 4 + len as int));
                assert(remaining(*reader) =~= rem_i.skip(4 + len as int));
                assert(reader.pos == prev_pos + 4 + len);
            }
            let ghost rules_before = rules@;
            match string_from_bytes(bytes) {
                Some(rule) => {
                    proof {
                        assert(rule_views(rules_before.push(rule))
                            =~= rule_views(rules_before).push(rule@));
                        if parse_excludes(remaining(*reader)) is Some {
                            let tail = parse_excludes(remaining(*reader)).unwrap();
                            assert(rule_views(rules_before) + (seq![rule@] + tail.0)
                                =~= rule_views(rules_before).push(rule@) + tail.0);
                        }
                    }
                    rules.push(rule);
                }
                None => {
                    proof {
                        if parse_excludes(remaining(*reader)) is Some {
                            let tail = parse_excludes(remaining(*reader)).unwrap();
                            assert(rule_views(rules_before)
                                + (Seq::<Seq<char>>::empty() + tail.0)
                                =~= rule_views(rules_before) + tail.0);
                        }
                    }
                }
            }
        }
    }
}

} // verus!
