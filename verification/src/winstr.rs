//! Wide (UTF-16 code unit) strings, the representation in which the store
//! keeps names and text values.

use vstd::prelude::*;

verus! {

/// The UTF-16 code units that `str::encode_utf16` yields for a string,
/// without a terminator.
pub uninterp spec fn utf16_of(s: Seq<char>) -> Seq<u16>;

/// The characters that `String::from_utf16_lossy` decodes from a sequence of
/// code units.
pub uninterp spec fn utf16_lossy_of(units: Seq<u16>) -> Seq<char>;

/// The code units of a text literal as the store holds them: the UTF-16
/// encoding followed by one terminating zero unit.
pub open spec fn wide_lit(s: Seq<char>) -> Seq<u16> {
    utf16_of(s).push(0u16)
}

/// `s` with every trailing zero unit removed.
pub open spec fn strip_trailing_nul(s: Seq<u16>) -> Seq<u16>
    decreases s.len(),
{
    if s.len() > 0 && s.last() == 0u16 {
        strip_trailing_nul(s.drop_last())
    } else {
        s
    }
}

pub open spec fn lo_byte(x: u16) -> u8 {
    (x % 256) as u8
}

pub open spec fn hi_byte(x: u16) -> u8 {
    (x / 256) as u8
}

/// The little-endian byte image of a sequence of code units.
pub open spec fn wide_bytes(s: Seq<u16>) -> Seq<u8> {
    Seq::new(2 * s.len(), |i: int| if i % 2 == 0 { lo_byte(s[i / 2]) } else { hi_byte(s[i / 2]) })
}

/// A wide string: a buffer of UTF-16 code units.  Whether the buffer carries
/// a terminating zero unit is up to the code that built it; names and values
/// built from text carry one.
pub struct WinStr {
    data: Vec<u16>,
}

impl View for WinStr {
    type V = Seq<u16>;

    closed spec fn view(&self) -> Seq<u16> {
        self.data@
    }
}

/// Relies on `str::encode_utf16`: the UTF-16 code units of the string, a
/// function of the characters alone.  The encoding is lossless — decoding
/// valid UTF-16 is unambiguous — so distinct texts yield distinct unit
/// sequences.
#[verifier::external_body]
fn encode_wide(s: &str) -> (r: Vec<u16>)
    ensures
        r@ == utf16_of(s@),
        forall|t: Seq<char>| utf16_of(t) == r@ ==> t == s@,
{
    s.encode_utf16().collect()
}

/// Relies on `String::from_utf16_lossy`: the characters decoded from the
/// units, a function of the units alone.
#[verifier::external_body]
fn decode_wide_lossy(units: &Vec<u16>) -> (r: String)
    ensures
        r@ == utf16_lossy_of(units@),
{
    String::from_utf16_lossy(units)
}

impl WinStr {
    /// The encoding of a text string, with the terminating zero unit.
    /// Distinct texts encode to distinct buffers.
    pub fn from_str(s: &str) -> (r: WinStr)
        ensures
            r@ == wide_lit(s@),
            forall|t: Seq<char>| wide_lit(t) == r@ ==> t == s@,
    {
        let mut data = encode_wide(s);
        data.push(0u16);
        let r = WinStr { data };
        proof {
            assert forall|t: Seq<char>| wide_lit(t) == r@ implies t == s@ by {
                assert(wide_lit(t).drop_last() =~= utf16_of(t));
                assert(wide_lit(s@).drop_last() =~= utf16_of(s@));
            }
        }
        r
    }

    /// The first `sz` units of `buf` (all of it, if `buf` is shorter).
    pub fn from_buffer(buf: Vec<u16>, sz: usize) -> (r: WinStr)
        ensures
            r@ == if sz as int <= buf@.len() {
                buf@.take(sz as int)
            } else {
                buf@
            },
    {
        let n = if sz < buf.len() {
            sz
        } else {
            buf.len()
        };
        let mut data: Vec<u16> = Vec::new();
        let mut i: usize = 0;
        while i < n
            invariant
                i <= n,
                n <= buf@.len(),
                data@ == buf@.take(i as int),
            decreases n - i,
        {
            data.push(buf[i]);
            proof {
                assert(buf@.take(i as int).push(buf@[i as int]) =~= buf@.take(i + 1));
            }
            i = i + 1;
        }
        proof {
            if n == buf@.len() {
                assert(buf@.take(n as int) =~= buf@);
            }
        }
        WinStr { data }
    }

    /// A copy of the units of a borrowed slice.
    pub fn from_slice(slice: &[u16]) -> (r: WinStr)
        ensures
            r@ == slice@,
    {
        let mut data: Vec<u16> = Vec::new();
        let mut i: usize = 0;
        while i < slice.len()
            invariant
                i <= slice@.len(),
                data@ == slice@.take(i as int),
            decreases slice@.len() - i,
        {
            data.push(slice[i]);
            proof {
                assert(slice@.take(i as int).push(slice@[i as int]) =~= slice@.take(i + 1));
            }
            i = i + 1;
        }
        proof {
            assert(slice@.take(slice@.len() as int) =~= slice@);
        }
        WinStr { data }
    }

    /// An identical copy.
    pub fn dup(&self) -> (r: WinStr)
        ensures
            r@ == self@,
    {
        let mut data: Vec<u16> = Vec::new();
        let mut i: usize = 0;
        while i < self.data.len()
            invariant
                i <= self.data@.len(),
                data@ == self.data@.take(i as int),
            decreases self.data@.len() - i,
        {
            data.push(self.data[i]);
            proof {
                assert(self.data@.take(i as int).push(self.data@[i as int]) =~= self.data@.take(
                    i + 1,
                ));
            }
            i = i + 1;
        }
        proof {
            assert(self.data@.take(self.data@.len() as int) =~= self.data@);
        }
        WinStr { data }
    }

    /// The text decoded from the buffer, with trailing zero units dropped
    /// first, as a terminator is not part of the text.
    pub fn get_string(&self) -> (r: String)
        ensures
            r@ == utf16_lossy_of(strip_trailing_nul(self@)),
    {
        let mut end: usize = self.data.len();
        proof {
            assert(self.data@.take(end as int) =~= self.data@);
        }
        while end > 0 && self.data[end - 1] == 0u16
            invariant
                end <= self.data@.len(),
                strip_trailing_nul(self.data@) == strip_trailing_nul(self.data@.take(end as int)),
            decreases end,
        {
            proof {
                assert(self.data@.take(end as int).last() == 0u16);
                assert(self.data@.take(end as int).drop_last() =~= self.data@.take(end - 1));
            }
            end = end - 1;
        }
        proof {
            if end == self.data@.len() {
                assert(self.data@.take(end as int) =~= self.data@);
            }
            assert(strip_trailing_nul(self.data@.take(end as int)) == self.data@.take(end as int));
        }
        let mut prefix: Vec<u16> = Vec::new();
        let mut i: usize = 0;
        while i < end
            invariant
                i <= end,
                end <= self.data@.len(),
                prefix@ == self.data@.take(i as int),
            decreases end - i,
        {
            prefix.push(self.data[i]);
            proof {
                assert(self.data@.take(i as int).push(self.data@[i as int]) =~= self.data@.take(
                    i + 1,
                ));
            }
            i = i + 1;
        }
        decode_wide_lossy(&prefix)
    }

    /// The little-endian byte image of the buffer, terminator included, as
    /// the store's native value encoding of text.
    pub fn bytes_slice(&self) -> (r: Vec<u8>)
        ensures
            r@ == wide_bytes(self@),
    {
        let mut r: Vec<u8> = Vec::new();
        let mut i: usize = 0;
        while i < self.data.len()
            invariant
                i <= self.data@.len(),
                r@ == wide_bytes(self.data@).take(2 * i as int),
            decreases self.data@.len() - i,
        {
            let x = self.data[i];
            r.push((x % 256) as u8);
            r.push((x / 256) as u8);
            proof {
                assert(wide_bytes(self.data@).take(2 * (i as int)).push(lo_byte(self.data@[i as int])).push(
                    hi_byte(self.data@[i as int]),
                ) =~= wide_bytes(self.data@).take(2 * (i + 1)));
            }
            i = i + 1;
        }
        proof {
            assert(wide_bytes(self.data@).take(2 * self.data@.len() as int) =~= wide_bytes(
                self.data@,
            ));
        }
        r
    }

    /// The unit count of the buffer, terminator included.
    pub fn len_with_terminator(&self) -> (r: usize)
        ensures
            r == self@.len(),
    {
        self.data.len()
    }
}

/// Whether two wide strings hold the same units.
pub fn wide_eq(a: &WinStr, b: &WinStr) -> (r: bool)
    ensures
        r == (a@ == b@),
{
    if a.data.len() != b.data.len() {
        proof {
            assert(a@ != b@);
        }
        return false;
    }
    let mut i: usize = 0;
    while i < a.data.len()
        invariant
            i <= a.data@.len(),
            a.data@.len() == b.data@.len(),
            forall|j: int| 0 <= j < i ==> a.data@[j] == b.data@[j],
        decreases a.data@.len() - i,
    {
        if a.data[i] != b.data[i] {
            proof {
                assert(a@[i as int] != b@[i as int]);
            }
            return false;
        }
        i = i + 1;
    }
    proof {
        assert(a@ =~= b@);
    }
    true
}

} // verus!
