//! One record: a name, a separator byte, and a fixed-point value in tenths.
use vstd::prelude::*;

verus! {

/// Capacity in bytes of a name key.
pub const NAME_WIDTH: usize = 36;

pub const MINUS: u8 = 45;

pub const DOT: u8 = 46;

pub open spec fn is_digit(b: u8) -> bool {
    48 <= b <= 57
}

pub open spec fn digit_value(b: u8) -> int {
    b - 48
}

/// The key for a name: its first `NAME_WIDTH` bytes, padded with zeros.
pub open spec fn key_of(name: Seq<u8>) -> Seq<u8> {
    Seq::new(NAME_WIDTH as nat, |i: int| if i < name.len() { name[i] } else { 0u8 })
}

/// A name of at least `NAME_WIDTH` bytes keys as its first `NAME_WIDTH`
/// bytes, so two such names that agree on those bytes share one key.
pub proof fn lemma_key_truncates(a: Seq<u8>, b: Seq<u8>)
    requires
        a.len() >= NAME_WIDTH,
        b.len() >= NAME_WIDTH,
        a.subrange(0, NAME_WIDTH as int) == b.subrange(0, NAME_WIDTH as int),
    ensures
        key_of(a) == a.subrange(0, NAME_WIDTH as int),
        key_of(a) == key_of(b),
{
    assert(key_of(a) =~= a.subrange(0, NAME_WIDTH as int));
    assert(key_of(b) =~= b.subrange(0, NAME_WIDTH as int));
}

/// A name shorter than `NAME_WIDTH` bytes keys as itself followed by zeros.
pub proof fn lemma_key_pads(name: Seq<u8>)
    requires
        name.len() <= NAME_WIDTH,
    ensures
        key_of(name).len() == NAME_WIDTH,
        key_of(name).subrange(0, name.len() as int) == name,
        forall|i: int| name.len() <= i < NAME_WIDTH ==> key_of(name)[i] == 0,
{
    assert(key_of(name).subrange(0, name.len() as int) =~= name);
}

/// The magnitude in tenths of `d.d` or `dd.d`.
pub open spec fn magnitude_of(s: Seq<u8>) -> Option<int> {
    if s.len() == 3 && is_digit(s[0]) && s[1] == DOT && is_digit(s[2]) {
        Some(10 * digit_value(s[0]) + digit_value(s[2]))
    } else if s.len() == 4 && is_digit(s[0]) && is_digit(s[1]) && s[2] == DOT && is_digit(
        s[3],
    ) {
        Some(100 * digit_value(s[0]) + 10 * digit_value(s[1]) + digit_value(s[3]))
    } else {
        None
    }
}

/// The value in tenths of an optional `-`, one or two integer digits, `.`,
/// and one fractional digit; `None` for anything else.
pub open spec fn value_of(s: Seq<u8>) -> Option<int> {
    if s.len() > 0 && s[0] == MINUS {
        match magnitude_of(s.subrange(1, s.len() as int)) {
            Some(m) => Some(-m),
            None => None,
        }
    } else {
        magnitude_of(s)
    }
}

/// Index of the first `b` in `s`, or `s.len()` when there is none.
pub open spec fn first_index(s: Seq<u8>, b: u8) -> nat
    decreases s.len(),
{
    if s.len() == 0 {
        0
    } else if s[0] == b {
        0
    } else {
        1 + first_index(s.drop_first(), b)
    }
}

pub proof fn lemma_first_index(s: Seq<u8>, b: u8)
    ensures
        first_index(s, b) <= s.len(),
        first_index(s, b) < s.len() ==> s[first_index(s, b) as int] == b,
        forall|j: int| 0 <= j < first_index(s, b) ==> s[j] != b,
    decreases s.len(),
{
    if s.len() > 0 && s[0] != b {
        lemma_first_index(s.drop_first(), b);
        assert forall|j: int| 0 <= j < first_index(s, b) implies s[j] != b by {
            if j > 0 {
                assert(s[j] == s.drop_first()[j - 1]);
            }
        }
    }
}

/// What a record means: the key of the bytes before the first separator and
/// the value of the bytes after it; `None` without a separator or with a
/// malformed value.
pub open spec fn parse_record_spec(r: Seq<u8>, sep: u8) -> Option<(Seq<u8>, int)> {
    let p = first_index(r, sep) as int;
    if p < r.len() {
        match value_of(r.subrange(p + 1, r.len() as int)) {
            Some(v) => Some((key_of(r.subrange(0, p)), v)),
            None => None,
        }
    } else {
        None
    }
}

/// A name truncated or zero-padded to `NAME_WIDTH` bytes.
pub struct NameKey {
    bytes: Vec<u8>,
}

impl View for NameKey {
    type V = Seq<u8>;

    closed spec fn view(&self) -> Seq<u8> {
        self.bytes@
    }
}

impl NameKey {
    /// Copies at most `NAME_WIDTH` bytes of `name` and pads with zeros.
    pub fn from_name(name: &[u8]) -> (r: NameKey)
        ensures
            r@ == key_of(name@),
    {
        let mut bytes: Vec<u8> = Vec::with_capacity(NAME_WIDTH);
        let mut i: usize = 0;
        while i < NAME_WIDTH
            invariant
                i <= NAME_WIDTH,
                bytes@.len() == i,
                forall|j: int| 0 <= j < i ==> bytes@[j] == key_of(name@)[j],
            decreases NAME_WIDTH - i,
        {
            if i < name.len() {
                bytes.push(name[i]);
            } else {
                bytes.push(0);
            }
            i = i + 1;
        }
        let r = NameKey { bytes };
        assert(r@ =~= key_of(name@));
        r
    }

    /// The key's bytes, padding included.
    pub fn as_bytes(&self) -> (r: &[u8])
        ensures
            r@ == self@,
    {
        self.bytes.as_slice()
    }

    /// Byte-for-byte equality, padding included.
    pub fn same_as(&self, other: &NameKey) -> (r: bool)
        ensures
            r == (self@ == other@),
    {
        if self.bytes.len() != other.bytes.len() {
            return false;
        }
        let mut i: usize = 0;
        while i < self.bytes.len()
            invariant
                self.bytes@.len() == other.bytes@.len(),
                i <= self.bytes@.len(),
                forall|j: int| 0 <= j < i ==> self.bytes@[j] == other.bytes@[j],
            decreases self.bytes@.len() - i,
        {
            if self.bytes[i] != other.bytes[i] {
                return false;
            }
            i = i + 1;
        }
        assert(self.bytes@ =~= other.bytes@);
        true
    }
}

impl Clone for NameKey {
    fn clone(&self) -> (r: NameKey)
        ensures
            r@ == self@,
    {
        NameKey { bytes: self.bytes.clone() }
    }
}

fn digit_at(input: &[u8], i: usize) -> (r: Option<i16>)
    requires
        i < input@.len(),
    ensures
        r == (if is_digit(input@[i as int]) {
            Some((input@[i as int] - 48) as i16)
        } else {
            None
        }),
{
    let b = input[i];
    if 48 <= b && b <= 57 {
        Some((b - 48) as i16)
    } else {
        None
    }
}

/// Parses a value in tenths: an optional `-`, one or two integer digits,
/// `.`, one fractional digit. Anything else is `None`.
pub fn parse_num(input: &[u8]) -> (r: Option<i16>)
    ensures
        match r {
            Some(v) => value_of(input@) == Some(v as int),
            None => value_of(input@) is None,
        },
        r is Some ==> -999 <= r->0 <= 999,
{
    let len = input.len();
    let negative = len > 0 && input[0] == MINUS;
    let start: usize = if negative { 1 } else { 0 };
    let ghost digits = input@.subrange(start as int, len as int);
    let mag: i16;
    if len - start == 3 {
        if input[start + 1] != DOT {
            return None;
        }
        match (digit_at(input, start), digit_at(input, start + 2)) {
            (Some(d2), Some(d3)) => {
                mag = 10 * d2 + d3;
            },
            _ => {
                return None;
            },
        }
        assert(digits[0] == input@[start as int]);
        assert(digits[1] == input@[start + 1]);
        assert(digits[2] == input@[start + 2]);
    } else if len - start == 4 {
        if input[start + 2] != DOT {
            return None;
        }
        match (digit_at(input, start), digit_at(input, start + 1), digit_at(input, start + 3)) {
            (Some(d1), Some(d2), Some(d3)) => {
                mag = 100 * d1 + 10 * d2 + d3;
            },
            _ => {
                return None;
            },
        }
        assert(digits[0] == input@[start as int]);
        assert(digits[1] == input@[start + 1]);
        assert(digits[2] == input@[start + 2]);
        assert(digits[3] == input@[start + 3]);
    } else {
        return None;
    }
    if !negative {
        assert(digits =~= input@);
    }
    if negative {
        Some(-mag)
    } else {
        Some(mag)
    }
}

/// Splits a record at its first separator into a key and a value.
pub fn parse_record(record: &[u8], sep: u8) -> (r: Option<(NameKey, i16)>)
    ensures
        match r {
            Some((k, v)) => parse_record_spec(record@, sep) == Some((k@, v as int)),
            None => parse_record_spec(record@, sep) is None,
        },
        match r {
            Some((_, v)) => -999 <= v <= 999,
            None => true,
        },
{
    proof {
        lemma_first_index(record@, sep);
    }
    let p = match first_occur(record, sep) {
        Some(p) => p,
        None => {
            return None;
        },
    };
    let len = record.len();
    let after = p + 1;
    let value = match parse_num(&record[after..len]) {
        Some(v) => v,
        None => {
            return None;
        },
    };
    let name = &record[0..p];
    let key = NameKey::from_name(name);
    Some((key, value))
}

/// Index of the first `token` in `s`, if any.
pub fn first_occur(s: &[u8], token: u8) -> (r: Option<usize>)
    ensures
        match r {
            Some(i) => i == first_index(s@, token) && i < s@.len(),
            None => first_index(s@, token) == s@.len(),
        },
{
    proof {
        lemma_first_index(s@, token);
    }
    let mut i: usize = 0;
    while i < s.len()
        invariant
            i <= s@.len(),
            forall|j: int| 0 <= j < i ==> s@[j] != token,
        decreases s@.len() - i,
    {
        if s[i] == token {
            assert(first_index(s@, token) == i) by {
                lemma_first_index(s@, token);
                if first_index(s@, token) < i {
                    assert(s@[first_index(s@, token) as int] == token);
                }
            }
            return Some(i);
        }
        i = i + 1;
    }
    None
}

} // verus!
