//! The memcached meta text protocol: requests as bytes, replies as values.
//!
//! Each operation is one request line (with the payload, for a store) and one
//! reply. A caller that owns the stream writes what the `*_request` functions
//! return, reads a header line up to `\n`, and hands it to the matching reply
//! function; where that reply announces a data block of `length` bytes, it
//! reads `length + 2` more bytes and builds the value with `value_from_block`.
use vstd::prelude::*;
use vstd::string::*;
use vstd::slice::slice_subrange;
use vstd::utf8::*;

use crate::error::MemcacheError;
use crate::text::{
    decimal, decimal_value, fields, is_ascii_bytes, is_ascii_ws, lemma_ascii_valid_utf8, lemma_decimal_digits, lemma_decimal_value,
    lemma_fields_run, lemma_fields_sep, parse_decimal, push_all, push_decimal, same_bytes,
    split_fields, strip_eol, strip_line_end, text_of, trim, trimmed,
};

verus! {

/// Data that is stored in, or read from, memcached.
pub struct RawValue {
    /// The bytes of the value, as stored.
    pub data: Vec<u8>,
    /// Opaque flags kept with the value.
    pub flags: u32,
    /// Seconds until the value expires; `None` asks for no expiry.
    pub time: Option<u32>,
    /// Compare-and-swap token; carried, not sent.
    pub cas: Option<u32>,
}

impl RawValue {
    /// A value holding `v`, with no flags, no expiry and no CAS token.
    pub fn from_vec(v: Vec<u8>) -> (r: Self)
        ensures
            r.data@ == v@,
            r.flags == 0,
            r.time is None,
            r.cas is None,
    {
        RawValue { data: v, flags: 0, time: None, cas: None }
    }

    pub fn set_time(self, t: Option<u32>) -> (r: Self)
        ensures
            r.data@ == self.data@,
            r.flags == self.flags,
            r.time == t,
            r.cas == self.cas,
    {
        let mut v = self;
        v.time = t;
        v
    }

    pub fn set_cas(self, c: Option<u32>) -> (r: Self)
        ensures
            r.data@ == self.data@,
            r.flags == self.flags,
            r.time == self.time,
            r.cas == c,
    {
        let mut v = self;
        v.cas = c;
        v
    }

    pub fn set_flags(self, f: u32) -> (r: Self)
        ensures
            r.data@ == self.data@,
            r.flags == f,
            r.time == self.time,
            r.cas == self.cas,
    {
        let mut v = self;
        v.flags = f;
        v
    }
}

impl From<Vec<u8>> for RawValue {
    fn from(v: Vec<u8>) -> (r: Self) {
        RawValue { data: v, flags: 0, time: None, cas: None }
    }
}

impl vstd::std_specs::convert::FromSpecImpl<Vec<u8>> for RawValue {
    open spec fn obeys_from_spec() -> bool {
        true
    }

    open spec fn from_spec(v: Vec<u8>) -> Self {
        RawValue { data: v, flags: 0, time: None, cas: None }
    }
}

/// A key is printable ASCII without space: every byte lies in `33..=126`.
pub open spec fn key_valid(k: Seq<u8>) -> bool {
    forall|i: int| 0 <= i < k.len() ==> 33 <= #[trigger] k[i] <= 126
}

/// Tells whether `key` holds a byte that a key may not hold.
pub fn check_key_invalid(key: &str) -> (r: bool)
    ensures
        r == !key_valid(key.spec_bytes()),
{
    let b = key.as_bytes();
    let mut i: usize = 0;
    while i < b.len()
        invariant
            i <= b@.len(),
            b@ == key.spec_bytes(),
            forall|j: int| 0 <= j < i ==> 33 <= #[trigger] b@[j] <= 126,
        decreases b@.len() - i,
    {
        if b[i] <= 32 || b[i] >= 127 {
            return true;
        }
        i = i + 1;
    }
    false
}

pub open spec fn crlf() -> Seq<u8> {
    seq![13u8, 10u8]
}

/// `mg <key> f v\r\n`: fetch one value with its flags.
pub open spec fn get_command(key: Seq<u8>) -> Seq<u8> {
    seq![109u8, 103u8, 32u8] + key + seq![32u8, 102u8, 32u8, 118u8] + crlf()
}

/// The keys, each after one space.
pub open spec fn spaced_keys(keys: Seq<Seq<u8>>) -> Seq<u8>
    decreases keys.len(),
{
    if keys.len() == 0 {
        Seq::empty()
    } else {
        spaced_keys(keys.drop_last()) + seq![32u8] + keys.last()
    }
}

/// `get <k1> <k2> ...\r\n`: fetch several values.
pub open spec fn get_many_command(keys: Seq<Seq<u8>>) -> Seq<u8> {
    seq![103u8, 101u8, 116u8] + spaced_keys(keys) + crlf()
}

/// `ms <key> S<size> T<ttl> F<flags>\r\n<data>\r\n`: store a value; an absent
/// expiry is written as `0`, which asks for none.
pub open spec fn set_command(key: Seq<u8>, data: Seq<u8>, time: Option<u32>, flags: u32) -> Seq<u8> {
    let ttl: nat = match time {
        Some(t) => t as nat,
        None => 0,
    };
    seq![109u8, 115u8, 32u8] + key + seq![32u8, 83u8] + decimal(data.len()) + seq![32u8, 84u8]
        + decimal(ttl) + seq![32u8, 70u8] + decimal(flags as nat) + crlf() + data + crlf()
}

/// `delete <key>\r\n`.
pub open spec fn delete_command(key: Seq<u8>) -> Seq<u8> {
    seq![100u8, 101u8, 108u8, 101u8, 116u8, 101u8, 32u8] + key + crlf()
}

/// `version\r\n`.
pub open spec fn version_command() -> Seq<u8> {
    seq![118u8, 101u8, 114u8, 115u8, 105u8, 111u8, 110u8] + crlf()
}

/// The bytes of each key.
pub open spec fn key_bytes(keys: Seq<&str>) -> Seq<Seq<u8>> {
    keys.map_values(|k: &str| k.spec_bytes())
}

/// Handle on the meta protocol. It holds no state: every call is one exchange.
pub struct Meta {}

impl Meta {
    /// A handle on the protocol.
    pub fn new() -> Self {
        Meta {}
    }

    /// The request that fetches `key`, or `BadKey`.
    pub fn get_request(&self, key: &str) -> (r: Result<Vec<u8>, MemcacheError>)
        ensures
            key_valid(key.spec_bytes()) ==> (r matches Ok(b) && b@ == get_command(key.spec_bytes())),
            !key_valid(key.spec_bytes()) ==> r matches Err(MemcacheError::BadKey),
    {
        if check_key_invalid(key) {
            return Err(MemcacheError::BadKey);
        }
        let mut out: Vec<u8> = vec![109u8, 103u8, 32u8];
        push_all(&mut out, key.as_bytes());
        let tail: Vec<u8> = vec![32u8, 102u8, 32u8, 118u8, 13u8, 10u8];
        push_all(&mut out, tail.as_slice());
        assert(out@ =~= get_command(key.spec_bytes()));
        Ok(out)
    }

    /// The request that fetches every key of `keys`, or `BadKey` if any of
    /// them is invalid.
    pub fn get_many_request(&self, keys: &[&str]) -> (r: Result<Vec<u8>, MemcacheError>)
        ensures
            (forall|i: int| 0 <= i < keys@.len() ==> key_valid(#[trigger] keys@[i].spec_bytes()))
                ==> (r matches Ok(b) && b@ == get_many_command(key_bytes(keys@))),
            (exists|i: int| 0 <= i < keys@.len() && !key_valid(#[trigger] keys@[i].spec_bytes()))
                ==> r matches Err(MemcacheError::BadKey),
    {
        let mut i: usize = 0;
        while i < keys.len()
            invariant
                i <= keys@.len(),
                forall|j: int| 0 <= j < i ==> key_valid(#[trigger] keys@[j].spec_bytes()),
            decreases keys@.len() - i,
        {
            if check_key_invalid(keys[i]) {
                return Err(MemcacheError::BadKey);
            }
            i = i + 1;
        }
        let mut out: Vec<u8> = vec![103u8, 101u8, 116u8];
        let mut i: usize = 0;
        assert(key_bytes(keys@).subrange(0, 0) =~= Seq::<Seq<u8>>::empty());
        assert(out@ =~= seq![103u8, 101u8, 116u8] + spaced_keys(key_bytes(keys@).subrange(0, 0)));
        while i < keys.len()
            invariant
                i <= keys@.len(),
                out@ == seq![103u8, 101u8, 116u8] + spaced_keys(key_bytes(keys@).subrange(0, i as int)),
            decreases keys@.len() - i,
        {
            let ghost ks = key_bytes(keys@);
            assert(ks.subrange(0, i + 1).drop_last() =~= ks.subrange(0, i as int));
            out.push(32u8);
            push_all(&mut out, keys[i].as_bytes());
            i = i + 1;
            assert(out@ =~= seq![103u8, 101u8, 116u8] + spaced_keys(ks.subrange(0, i as int)));
        }
        assert(key_bytes(keys@).subrange(0, i as int) =~= key_bytes(keys@));
        out.push(13u8);
        out.push(10u8);
        assert(out@ =~= get_many_command(key_bytes(keys@)));
        Ok(out)
    }

    /// The request that stores `data` under `key`, or `BadKey`. The CAS token
    /// is not sent.
    pub fn set_request(&self, key: &str, data: &RawValue) -> (r: Result<Vec<u8>, MemcacheError>)
        ensures
            key_valid(key.spec_bytes()) ==> (r matches Ok(b) && b@ == set_command(
                key.spec_bytes(),
                data.data@,
                data.time,
                data.flags,
            )),
            !key_valid(key.spec_bytes()) ==> r matches Err(MemcacheError::BadKey),
    {
        if check_key_invalid(key) {
            return Err(MemcacheError::BadKey);
        }
        let ttl: u32 = match data.time {
            Some(t) => t,
            None => 0,
        };
        let mut out: Vec<u8> = vec![109u8, 115u8, 32u8];
        push_all(&mut out, key.as_bytes());
        out.push(32u8);
        out.push(83u8);
        push_decimal(&mut out, data.data.len() as u64);
        out.push(32u8);
        out.push(84u8);
        push_decimal(&mut out, ttl as u64);
        out.push(32u8);
        out.push(70u8);
        push_decimal(&mut out, data.flags as u64);
        out.push(13u8);
        out.push(10u8);
        push_all(&mut out, data.data.as_slice());
        out.push(13u8);
        out.push(10u8);
        assert(out@ =~= set_command(key.spec_bytes(), data.data@, data.time, data.flags));
        Ok(out)
    }

    /// The request that deletes `key`, or `BadKey`.
    pub fn delete_request(&self, key: &str) -> (r: Result<Vec<u8>, MemcacheError>)
        ensures
            key_valid(key.spec_bytes()) ==> (r matches Ok(b) && b@ == delete_command(key.spec_bytes())),
            !key_valid(key.spec_bytes()) ==> r matches Err(MemcacheError::BadKey),
    {
        if check_key_invalid(key) {
            return Err(MemcacheError::BadKey);
        }
        let mut out: Vec<u8> = vec![100u8, 101u8, 108u8, 101u8, 116u8, 101u8, 32u8];
        push_all(&mut out, key.as_bytes());
        out.push(13u8);
        out.push(10u8);
        assert(out@ =~= delete_command(key.spec_bytes()));
        Ok(out)
    }

    /// The request that asks for the server's version.
    pub fn version_request(&self) -> (r: Vec<u8>)
        ensures
            r@ == version_command(),
    {
        let out: Vec<u8> = vec![118u8, 101u8, 114u8, 115u8, 105u8, 111u8, 110u8, 13u8, 10u8];
        assert(out@ =~= version_command());
        out
    }
}

/// `EN`
pub open spec fn word_en() -> Seq<u8> {
    seq![69u8, 78u8]
}

/// `VA`
pub open spec fn word_va() -> Seq<u8> {
    seq![86u8, 65u8]
}

/// `VALUE`
pub open spec fn word_value() -> Seq<u8> {
    seq![86u8, 65u8, 76u8, 85u8, 69u8]
}

/// `END`
pub open spec fn word_end() -> Seq<u8> {
    seq![69u8, 78u8, 68u8]
}

/// `OK`
pub open spec fn word_ok() -> Seq<u8> {
    seq![79u8, 75u8]
}

/// `HD`
pub open spec fn word_hd() -> Seq<u8> {
    seq![72u8, 68u8]
}

/// `CLIENT_ERROR`
pub open spec fn word_client_error() -> Seq<u8> {
    seq![67u8, 76u8, 73u8, 69u8, 78u8, 84u8, 95u8, 69u8, 82u8, 82u8, 79u8, 82u8]
}

/// `DELETED`
pub open spec fn word_deleted() -> Seq<u8> {
    seq![68u8, 69u8, 76u8, 69u8, 84u8, 69u8, 68u8]
}

/// `NOT_FOUND`
pub open spec fn word_not_found() -> Seq<u8> {
    seq![78u8, 79u8, 84u8, 95u8, 70u8, 79u8, 85u8, 78u8, 68u8]
}

/// `VERSION `, with its space.
pub open spec fn version_prefix() -> Seq<char> {
    seq!['V', 'E', 'R', 'S', 'I', 'O', 'N', ' ']
}

/// A data length: a decimal `usize` such that the block that carries it,
/// `\r\n` included, still has a `usize` size.
pub open spec fn length_field(t: Seq<u8>) -> Option<usize> {
    match decimal_value(t) {
        Some(n) => if n + 2 <= usize::MAX {
            Some(n as usize)
        } else {
            None
        },
        None => None,
    }
}

/// Flags written as a decimal `u32`.
pub open spec fn flags_number(t: Seq<u8>) -> Option<u32> {
    match decimal_value(t) {
        Some(n) => if n <= u32::MAX {
            Some(n as u32)
        } else {
            None
        },
        None => None,
    }
}

/// Flags written as `f` and a decimal `u32`.
pub open spec fn flags_field(t: Seq<u8>) -> Option<u32> {
    if t.len() > 0 && t[0] == 102 {
        flags_number(t.drop_first())
    } else {
        None
    }
}

/// What the header of a reply to `mg <key> f v` announces.
#[derive(Debug, Clone, Copy, PartialEq, Eq)]
pub enum GetReply {
    /// `EN`: no value is stored under the key.
    NotFound,
    /// `VA <length> f<flags>`: a data block of `length` bytes and `\r\n` follows.
    Found { length: usize, flags: u32 },
}

pub open spec fn bad_reply<T>() -> Result<T, MemcacheError> {
    Err(MemcacheError::BadServerResponse)
}

/// The meaning of a header line read in reply to `mg <key> f v`.
pub open spec fn get_reply_of(line: Seq<u8>) -> Result<GetReply, MemcacheError> {
    let h = strip_eol(line);
    let f = fields(h);
    if !valid_utf8(h) || f.len() == 0 {
        bad_reply()
    } else if f[0] == word_en() {
        Ok(GetReply::NotFound)
    } else if f[0] != word_va() || f.len() != 3 {
        bad_reply()
    } else {
        match (length_field(f[1]), flags_field(f[2])) {
            (Some(n), Some(x)) => Ok(GetReply::Found { length: n, flags: x }),
            _ => bad_reply(),
        }
    }
}

/// A record line of a reply to `get <k1> <k2> ...`: `VALUE <key> <flags> <length>`,
/// as the key's bytes, the flags and the length; `None` if it is malformed.
pub open spec fn record_of(line: Seq<u8>) -> Option<(Seq<u8>, u32, usize)> {
    let h = strip_eol(line);
    let f = fields(h);
    if valid_utf8(h) && f.len() == 4 && f[0] == word_value() && valid_utf8(f[1]) {
        match (flags_number(f[2]), length_field(f[3])) {
            (Some(x), Some(n)) => Some((f[1], x, n)),
            _ => None,
        }
    } else {
        None
    }
}

/// The line that ends a reply to `get <k1> <k2> ...`.
pub open spec fn is_end_line(line: Seq<u8>) -> bool {
    strip_eol(line) == word_end()
}

/// One line of a reply to `get <k1> <k2> ...`.
pub enum ManyReply {
    /// `END`: no more values follow.
    End,
    /// `VALUE <key> <flags> <length>`: a data block of `length` bytes and
    /// `\r\n` follows.
    Record { key: String, flags: u32, length: usize },
}

/// The meaning of the reply to `ms ...`.
pub open spec fn set_reply_of(line: Seq<u8>) -> Result<(), MemcacheError> {
    let h = strip_eol(line);
    let f = fields(h);
    if !valid_utf8(h) || f.len() == 0 {
        bad_reply()
    } else if f[0] == word_hd() || f[0] == word_ok() {
        Ok(())
    } else if f[0] == word_client_error() {
        Err(MemcacheError::BadQuery)
    } else {
        bad_reply()
    }
}

/// The meaning of the reply to `delete <key>`: `Some(())` if the key was
/// removed, `None` if it was not there.
pub open spec fn delete_reply_of(line: Seq<u8>) -> Result<Option<()>, MemcacheError> {
    let h = strip_eol(line);
    if h == word_deleted() {
        Ok(Some(()))
    } else if h == word_not_found() {
        Ok(None)
    } else {
        bad_reply()
    }
}

/// The version that the reply to `version` carries: what follows `VERSION `
/// in the trimmed line, which must not be empty.
pub open spec fn version_of(line: Seq<u8>) -> Option<Seq<char>> {
    if valid_utf8(line) {
        let t = trim(decode_utf8(line));
        if t.len() > 8 && t.subrange(0, 8) == version_prefix() {
            Some(t.subrange(8, t.len() as int))
        } else {
            None
        }
    } else {
        None
    }
}

/// The data that a block carries: its first `length` bytes.
pub open spec fn block_data(block: Seq<u8>, length: usize) -> Seq<u8> {
    if length <= block.len() {
        block.subrange(0, length as int)
    } else {
        block
    }
}

/// Reads a data length (see `length_field`).
fn parse_length(t: &[u8]) -> (r: Option<usize>)
    ensures
        r == length_field(t@),
{
    match parse_decimal(t, (usize::MAX - 2) as u64) {
        Some(n) => Some(n as usize),
        None => None,
    }
}

/// Reads flags written as a decimal number (see `flags_number`).
fn parse_flags(t: &[u8]) -> (r: Option<u32>)
    ensures
        r == flags_number(t@),
{
    match parse_decimal(t, u32::MAX as u64) {
        Some(n) => Some(n as u32),
        None => None,
    }
}

impl Meta {
    /// Reads the header line of the reply to `mg <key> f v`.
    pub fn get_reply(&self, line: &[u8]) -> (r: Result<GetReply, MemcacheError>)
        ensures
            r == get_reply_of(line@),
    {
        let h = strip_line_end(line);
        if text_of(h.as_slice()).is_none() {
            return Err(MemcacheError::BadServerResponse);
        }
        let f = split_fields(h.as_slice());
        if f.len() == 0 {
            return Err(MemcacheError::BadServerResponse);
        }
        let en: Vec<u8> = vec![69u8, 78u8];
        let va: Vec<u8> = vec![86u8, 65u8];
        assert(en@ =~= word_en());
        assert(va@ =~= word_va());
        if same_bytes(f[0].as_slice(), en.as_slice()) {
            return Ok(GetReply::NotFound);
        }
        if !same_bytes(f[0].as_slice(), va.as_slice()) || f.len() != 3 {
            return Err(MemcacheError::BadServerResponse);
        }
        let length = match parse_length(f[1].as_slice()) {
            Some(n) => n,
            None => {
                return Err(MemcacheError::BadServerResponse);
            },
        };
        let ft = f[2].as_slice();
        if ft.len() == 0 || ft[0] != 102 {
            return Err(MemcacheError::BadServerResponse);
        }
        let digits = slice_subrange(ft, 1, ft.len());
        assert(digits@ =~= ft@.drop_first());
        let flags = match parse_flags(digits) {
            Some(x) => x,
            None => {
                return Err(MemcacheError::BadServerResponse);
            },
        };
        Ok(GetReply::Found { length, flags })
    }

    /// Reads one line of the reply to `get <k1> <k2> ...`.
    pub fn get_many_reply(&self, line: &[u8]) -> (r: Result<ManyReply, MemcacheError>)
        ensures
            is_end_line(line@) ==> r matches Ok(ManyReply::End),
            !is_end_line(line@) ==> match record_of(line@) {
                Some((k, x, n)) => (r matches Ok(ManyReply::Record { key, flags, length }) && key@
                    == decode_utf8(k) && flags == x && length == n),
                None => r matches Err(MemcacheError::BadServerResponse),
            },
    {
        let h = strip_line_end(line);
        let end: Vec<u8> = vec![69u8, 78u8, 68u8];
        assert(end@ =~= word_end());
        if same_bytes(h.as_slice(), end.as_slice()) {
            return Ok(ManyReply::End);
        }
        if text_of(h.as_slice()).is_none() {
            return Err(MemcacheError::BadServerResponse);
        }
        let f = split_fields(h.as_slice());
        let value: Vec<u8> = vec![86u8, 65u8, 76u8, 85u8, 69u8];
        assert(value@ =~= word_value());
        if f.len() != 4 || !same_bytes(f[0].as_slice(), value.as_slice()) {
            return Err(MemcacheError::BadServerResponse);
        }
        let key = match text_of(f[1].as_slice()) {
            Some(k) => k,
            None => {
                return Err(MemcacheError::BadServerResponse);
            },
        };
        let flags = match parse_flags(f[2].as_slice()) {
            Some(x) => x,
            None => {
                return Err(MemcacheError::BadServerResponse);
            },
        };
        let length = match parse_length(f[3].as_slice()) {
            Some(n) => n,
            None => {
                return Err(MemcacheError::BadServerResponse);
            },
        };
        Ok(ManyReply::Record { key, flags, length })
    }

    /// The value carried by a data block: its first `length` bytes, the
    /// `\r\n` after them left out.
    pub fn value_from_block(&self, block: Vec<u8>, length: usize, flags: u32) -> (v: RawValue)
        ensures
            v.data@ == block_data(block@, length),
            v.flags == flags,
            v.time is None,
            v.cas is None,
    {
        let mut data = block;
        data.truncate(length);
        proof {
            if length <= block@.len() {
                assert(data@ =~= block@.subrange(0, length as int));
            }
        }
        RawValue { data, flags, time: None, cas: None }
    }

    /// Appends the value of a `VALUE` record to the values read so far, so
    /// that they stay in the order in which the server sent them.
    pub fn push_record(
        &self,
        values: &mut Vec<(String, RawValue)>,
        key: String,
        block: Vec<u8>,
        length: usize,
        flags: u32,
    )
        ensures
            final(values)@.len() == old(values)@.len() + 1,
            final(values)@.subrange(0, old(values)@.len() as int) == old(values)@,
            final(values)@.last().0@ == key@,
            final(values)@.last().1.data@ == block_data(block@, length),
            final(values)@.last().1.flags == flags,
            final(values)@.last().1.time is None,
            final(values)@.last().1.cas is None,
    {
        let v = self.value_from_block(block, length, flags);
        values.push((key, v));
        assert(values@.subrange(0, old(values)@.len() as int) =~= old(values)@);
    }

    /// Reads the reply to `ms ...`.
    pub fn set_reply(&self, line: &[u8]) -> (r: Result<(), MemcacheError>)
        ensures
            r == set_reply_of(line@),
    {
        let h = strip_line_end(line);
        if text_of(h.as_slice()).is_none() {
            return Err(MemcacheError::BadServerResponse);
        }
        let f = split_fields(h.as_slice());
        if f.len() == 0 {
            return Err(MemcacheError::BadServerResponse);
        }
        let hd: Vec<u8> = vec![72u8, 68u8];
        let ok: Vec<u8> = vec![79u8, 75u8];
        let client_error: Vec<u8> = vec![67u8, 76u8, 73u8, 69u8, 78u8, 84u8, 95u8, 69u8, 82u8, 82u8, 79u8, 82u8];
        assert(hd@ =~= word_hd());
        assert(ok@ =~= word_ok());
        assert(client_error@ =~= word_client_error());
        if same_bytes(f[0].as_slice(), hd.as_slice()) || same_bytes(f[0].as_slice(), ok.as_slice()) {
            Ok(())
        } else if same_bytes(f[0].as_slice(), client_error.as_slice()) {
            Err(MemcacheError::BadQuery)
        } else {
            Err(MemcacheError::BadServerResponse)
        }
    }

    /// Reads the reply to `delete <key>`.
    pub fn delete_reply(&self, line: &[u8]) -> (r: Result<Option<()>, MemcacheError>)
        ensures
            r == delete_reply_of(line@),
    {
        let h = strip_line_end(line);
        let deleted: Vec<u8> = vec![68u8, 69u8, 76u8, 69u8, 84u8, 69u8, 68u8];
        let not_found: Vec<u8> = vec![78u8, 79u8, 84u8, 95u8, 70u8, 79u8, 85u8, 78u8, 68u8];
        assert(deleted@ =~= word_deleted());
        assert(not_found@ =~= word_not_found());
        if same_bytes(h.as_slice(), deleted.as_slice()) {
            Ok(Some(()))
        } else if same_bytes(h.as_slice(), not_found.as_slice()) {
            Ok(None)
        } else {
            Err(MemcacheError::BadServerResponse)
        }
    }

    /// Reads the reply to `version`.
    pub fn version_reply(&self, line: &[u8]) -> (r: Result<String, MemcacheError>)
        ensures
            match version_of(line@) {
                Some(v) => (r matches Ok(s) && s@ == v),
                None => r matches Err(MemcacheError::BadServerResponse),
            },
    {
        let text = match text_of(line) {
            Some(s) => s,
            None => {
                return Err(MemcacheError::BadServerResponse);
            },
        };
        let t = trimmed(text.as_str());
        let n = t.unicode_len();
        if n <= 8 {
            return Err(MemcacheError::BadServerResponse);
        }
        let prefix: Vec<char> = vec!['V', 'E', 'R', 'S', 'I', 'O', 'N', ' '];
        let mut i: usize = 0;
        while i < 8
            invariant
                i <= 8 < n == t@.len(),
                valid_utf8(line@),
                t@ == trim(decode_utf8(line@)),
                prefix@ == version_prefix(),
                forall|j: int| 0 <= j < i ==> t@[j] == prefix@[j],
            decreases 8 - i,
        {
            if t.get_char(i) != prefix[i] {
                assert(t@.subrange(0, 8)[i as int] != version_prefix()[i as int]);
                return Err(MemcacheError::BadServerResponse);
            }
            i = i + 1;
        }
        assert(t@.subrange(0, 8) =~= version_prefix());
        let rest = t.substring_char(8, n);
        Ok(rest.to_owned())
    }
}

/// The header of a reply to `mg <key> f v` that announces `n` data bytes and
/// `flags`, both written as a store request writes them.
pub open spec fn found_header(n: nat, flags: u32) -> Seq<u8> {
    word_va() + seq![32u8] + decimal(n) + seq![32u8, 102u8] + decimal(flags as nat) + crlf()
}

/// A record line of a reply to `get <k1> <k2> ...`.
pub open spec fn record_header(key: Seq<u8>, flags: u32, n: nat) -> Seq<u8> {
    word_value() + seq![32u8] + key + seq![32u8] + decimal(flags as nat) + seq![32u8] + decimal(
        n,
    ) + crlf()
}

/// No byte of `w` is whitespace.
pub open spec fn no_ws(w: Seq<u8>) -> bool {
    forall|i: int| 0 <= i < w.len() ==> !is_ascii_ws(#[trigger] w[i])
}

/// The decimal writing of `n` is ASCII and holds no whitespace.
proof fn lemma_decimal_plain(n: nat)
    ensures
        no_ws(decimal(n)),
        is_ascii_bytes(decimal(n)),
        decimal(n).len() > 0,
        decimal_value(decimal(n)) == Some(n),
{
    lemma_decimal_digits(n);
    lemma_decimal_value(n);
}

/// A header line and its `\r\n`: the terminator is what `strip_eol` removes.
proof fn lemma_strip_crlf(h: Seq<u8>)
    ensures
        strip_eol(h + crlf()) == h,
{
    let l = h + crlf();
    assert(l[l.len() - 2] == 13 && l[l.len() - 1] == 10);
    assert(l.subrange(0, l.len() - 2) =~= h);
}

/// A stored value reads back unchanged. The `mg` header that announces the
/// size and flags of `data` as a store request writes them parses to that
/// size and those flags, and the data block that follows it, `\r\n`
/// included, yields `data`.
pub proof fn lemma_store_then_fetch(data: Seq<u8>, flags: u32)
    requires
        data.len() + 2 <= usize::MAX,
    ensures
        get_reply_of(found_header(data.len(), flags)) == Ok::<GetReply, MemcacheError>(
            GetReply::Found { length: data.len() as usize, flags },
        ),
        block_data(data + crlf(), data.len() as usize) == data,
{
    let d1 = decimal(data.len());
    let d2 = decimal(flags as nat);
    lemma_decimal_plain(data.len());
    lemma_decimal_plain(flags as nat);
    let ft = seq![102u8] + d2;
    let h = word_va() + seq![32u8] + d1 + seq![32u8] + ft;
    assert(found_header(data.len(), flags) =~= h + crlf());
    lemma_strip_crlf(h);
    assert(is_ascii_bytes(h));
    lemma_ascii_valid_utf8(h);
    let e = Seq::<u8>::empty();
    let acc = Seq::<Seq<u8>>::empty();
    let r4 = seq![32u8] + (ft + e);
    let r3 = d1 + r4;
    let r2 = seq![32u8] + r3;
    assert(h =~= word_va() + r2);
    assert(no_ws(word_va()));
    assert(no_ws(ft));
    lemma_fields_run(word_va(), r2, e, acc);
    assert(e + word_va() =~= word_va());
    lemma_fields_sep(32u8, r3, word_va(), acc);
    let acc1 = acc.push(word_va());
    lemma_fields_run(d1, r4, e, acc1);
    assert(e + d1 =~= d1);
    lemma_fields_sep(32u8, ft + e, d1, acc1);
    let acc2 = acc1.push(d1);
    lemma_fields_run(ft, e, e, acc2);
    assert(e + ft =~= ft);
    let f = fields(h);
    assert(f == acc2.push(ft));
    assert(f.len() == 3);
    assert(f[0] != word_en()) by {
        assert(f[0][0] != word_en()[0]);
    }
    assert(ft.drop_first() =~= d2);
    assert((data + crlf()).subrange(0, data.len() as int) =~= data);
}

/// A record line for a non-empty valid key is not the end line, and parses
/// back to that key, those flags and that length.
pub proof fn lemma_record_round_trip(key: Seq<u8>, flags: u32, n: nat)
    requires
        key.len() > 0,
        key_valid(key),
        n + 2 <= usize::MAX,
    ensures
        !is_end_line(record_header(key, flags, n)),
        record_of(record_header(key, flags, n)) == Some((key, flags, n as usize)),
{
    let d1 = decimal(flags as nat);
    let d2 = decimal(n);
    lemma_decimal_plain(flags as nat);
    lemma_decimal_plain(n);
    let h = word_value() + seq![32u8] + key + seq![32u8] + d1 + seq![32u8] + d2;
    assert(record_header(key, flags, n) =~= h + crlf());
    lemma_strip_crlf(h);
    assert(is_ascii_bytes(key));
    assert(is_ascii_bytes(h));
    lemma_ascii_valid_utf8(h);
    lemma_ascii_valid_utf8(key);
    assert(h.len() != word_end().len());
    let e = Seq::<u8>::empty();
    let acc = Seq::<Seq<u8>>::empty();
    let r6 = seq![32u8] + (d2 + e);
    let r5 = d1 + r6;
    let r4 = seq![32u8] + r5;
    let r3 = key + r4;
    let r2 = seq![32u8] + r3;
    assert(h =~= word_value() + r2);
    assert(no_ws(word_value()));
    assert(no_ws(key));
    lemma_fields_run(word_value(), r2, e, acc);
    assert(e + word_value() =~= word_value());
    lemma_fields_sep(32u8, r3, word_value(), acc);
    let acc1 = acc.push(word_value());
    lemma_fields_run(key, r4, e, acc1);
    assert(e + key =~= key);
    lemma_fields_sep(32u8, r5, key, acc1);
    let acc2 = acc1.push(key);
    lemma_fields_run(d1, r6, e, acc2);
    assert(e + d1 =~= d1);
    lemma_fields_sep(32u8, d2 + e, d1, acc2);
    let acc3 = acc2.push(d1);
    lemma_fields_run(d2, e, e, acc3);
    assert(e + d2 =~= d2);
    let f = fields(h);
    assert(f == acc3.push(d2));
    assert(f.len() == 4);
}

} // verus!
