//! GD3 metadata: the title, game, system and author strings of a file.

use crate::bytes::{
    has_tag, holds32, le16, le32, lemma_field_comes_back, rd32, stands_at, u16_at,
};
use crate::header::offset_of;
use vstd::prelude::*;
use vstd::slice::slice_subrange;

verus! {

/// The first four bytes of a GD3 tag: "Gd3 ".
pub const GD3_MAGIC: &'static [u8; 4] = &[0x47, 0x64, 0x33, 0x20];

/// A GD3 tag: zero-terminated UTF-16LE strings, one behind the other.
pub struct Gd3<'a> {
    strings: &'a [u8],
}

impl<'a> View for Gd3<'a> {
    type V = Seq<u8>;

    closed spec fn view(&self) -> Seq<u8> {
        self.strings@
    }
}

/// Whether a GD3 tag starts at `off` of `d`: the identification, a version, a
/// 32-bit length, and as many bytes.
pub open spec fn has_gd3(d: Seq<u8>, off: int) -> bool {
    &&& off + 12 <= d.len()
    &&& d.subrange(off, off + 4) == GD3_MAGIC@
    &&& off + 12 + le32(d, off + 8) <= d.len()
}

/// The code units of a UTF-16LE text; an odd byte at the end is left out.
pub open spec fn units(s: Seq<u8>) -> Seq<u16> {
    Seq::new((s.len() / 2) as nat, |i: int| le16(s, 2 * i) as u16)
}

/// Where the first zero unit of `u` stands, or the length of `u`.
pub open spec fn zero_at(u: Seq<u16>) -> int
    decreases u.len(),
{
    if u.len() == 0 || u[0] == 0 {
        0
    } else {
        1 + zero_at(u.drop_first())
    }
}

/// String number `n` of a text of zero-terminated strings. Behind the last
/// string every string is empty.
pub open spec fn nth_string(u: Seq<u16>, n: nat) -> Seq<u16>
    decreases n,
{
    if n == 0 {
        u.take(zero_at(u))
    } else if zero_at(u) >= u.len() {
        Seq::empty()
    } else {
        nth_string(u.skip(zero_at(u) + 1), (n - 1) as nat)
    }
}

/// [`zero_at`] is the first zero or, where there is none, the length.
proof fn lemma_zero_at(u: Seq<u16>)
    ensures
        0 <= zero_at(u) <= u.len(),
        zero_at(u) < u.len() ==> u[zero_at(u)] == 0,
        forall|i: int| 0 <= i < zero_at(u) ==> u[i] != 0,
    decreases u.len(),
{
    if u.len() != 0 && u[0] != 0 {
        lemma_zero_at(u.drop_first());
        assert forall|i: int| 0 <= i < zero_at(u) implies u[i] != 0 by {
            if i > 0 {
                assert(u[i] == u.drop_first()[i - 1]);
            }
        }
    }
}

/// A unit that is not zero belongs to the string being skipped.
proof fn lemma_skip_unit(u: Seq<u16>, n: nat)
    requires
        u.len() > 0,
        n > 0,
    ensures
        u[0] != 0 ==> nth_string(u, n) == nth_string(u.drop_first(), n),
        u[0] == 0 ==> nth_string(u, n) == nth_string(u.drop_first(), (n - 1) as nat),
{
    lemma_zero_at(u.drop_first());
    if u[0] == 0 {
        assert(u.skip(1) =~= u.drop_first());
    } else if zero_at(u) < u.len() {
        assert(u.skip(zero_at(u) + 1) =~= u.drop_first().skip(zero_at(u.drop_first()) + 1));
    }
}

/// Behind the end of the text every string is empty.
proof fn lemma_past_end(n: nat)
    ensures
        nth_string(Seq::<u16>::empty(), n) == Seq::<u16>::empty(),
{
    assert(Seq::<u16>::empty().take(0) =~= Seq::<u16>::empty());
}

impl<'a> Gd3<'a> {
    /// The GD3 tag at `gd3_offset` of `d`, if there is one.
    pub fn parse(d: &'a [u8], gd3_offset: usize) -> (r: Option<Gd3<'a>>)
        ensures
            match r {
                Some(g) => has_gd3(d@, gd3_offset as int) && g@ == d@.subrange(
                    gd3_offset + 12,
                    gd3_offset + 12 + le32(d@, gd3_offset + 8),
                ),
                None => !has_gd3(d@, gd3_offset as int),
            },
    {
        let total: usize = d.len();
        if gd3_offset > total || total - gd3_offset < 12 {
            return None;
        }
        if !has_tag(d, gd3_offset, GD3_MAGIC) {
            return None;
        }
        let len: usize = match rd32(d, gd3_offset + 8) {
            Ok(v) => v as usize,
            Err(_) => return None,
        };
        if total - gd3_offset - 12 < len {
            return None;
        }
        Some(Gd3 { strings: slice_subrange(d, gd3_offset + 12, gd3_offset + 12 + len) })
    }

    /// The code units of string number `n` of the tag (0 is the track, 2 the
    /// game, both in English), without the terminating zero.
    pub fn string(&self, n: usize) -> (r: Vec<u16>)
        ensures
            r@ == nth_string(units(self@), n as nat),
    {
        let s: &[u8] = self.strings;
        let count: usize = s.len() / 2;
        let ghost u = units(s@);
        let mut skipped: usize = 0;
        let mut i: usize = 0;
        assert(u.skip(0) =~= u);
        while skipped < n && i < count
            invariant
                s@ == self@,
                u == units(s@),
                count == s@.len() / 2,
                count == u.len(),
                2 * count <= usize::MAX,
                i <= count,
                skipped <= n,
                nth_string(u.skip(i as int), (n - skipped) as nat) == nth_string(u, n as nat),
            decreases count - i,
        {
            proof {
                lemma_skip_unit(u.skip(i as int), (n - skipped) as nat);
                assert(u.skip(i as int).drop_first() =~= u.skip(i + 1));
                assert(u.skip(i as int)[0] == u[i as int]);
            }
            if u16_at(s, 2 * i) == 0 {
                skipped = skipped + 1;
            }
            i = i + 1;
        }
        let ghost start = i as int;
        proof {
            lemma_zero_at(u.skip(start));
            if skipped < n {
                assert(u.skip(start) =~= Seq::<u16>::empty());
                lemma_past_end((n - skipped) as nat);
            }
        }
        let mut out: Vec<u16> = Vec::new();
        while i < count
            invariant
                s@ == self@,
                u == units(s@),
                count == s@.len() / 2,
                count == u.len(),
                2 * count <= usize::MAX,
                0 <= start <= i <= count,
                i - start <= zero_at(u.skip(start)) <= u.skip(start).len(),
                zero_at(u.skip(start)) < u.skip(start).len() ==> u.skip(start)[zero_at(
                    u.skip(start),
                )] == 0,
                forall|j: int|
                    0 <= j < zero_at(u.skip(start)) ==> #[trigger] u.skip(start)[j] != 0,
                out@ == u.subrange(start, i as int),
                skipped < n ==> i == count,
                skipped <= n,
                nth_string(u, n as nat) == (if skipped < n {
                    Seq::<u16>::empty()
                } else {
                    u.skip(start).take(zero_at(u.skip(start)))
                }),
            decreases count - i,
        {
            let unit: u16 = u16_at(s, 2 * i);
            assert(u.skip(start)[i - start] == unit);
            if unit == 0 {
                assert(out@ =~= u.skip(start).take(zero_at(u.skip(start))));
                return out;
            }
            out.push(unit);
            i = i + 1;
            assert(out@ =~= u.subrange(start, i as int));
        }
        assert(out@ =~= u.skip(start).take(zero_at(u.skip(start))));
        out
    }
}

/// The strings `strings`, each with a zero behind it.
pub open spec fn joined(strings: Seq<Seq<u16>>) -> Seq<u16>
    decreases strings.len(),
{
    if strings.len() == 0 {
        Seq::empty()
    } else {
        strings[0].push(0) + joined(strings.drop_first())
    }
}

/// The UTF-16LE bytes of the code units `u`.
pub open spec fn utf16le(u: Seq<u16>) -> Seq<u8> {
    Seq::new(
        2 * u.len(),
        |i: int|
            if i % 2 == 0 {
                (u[i / 2] % 0x100) as u8
            } else {
                (u[i / 2] / 0x100) as u8
            },
    )
}

/// Code units survive the way into bytes and back.
pub proof fn lemma_units_come_back(u: Seq<u16>)
    ensures
        units(utf16le(u)) == u,
{
    let s = utf16le(u);
    assert forall|i: int| 0 <= i < u.len() implies units(s)[i] == u[i] by {
        assert((2 * i) / 2 == i && (2 * i) % 2 == 0);
        assert((2 * i + 1) / 2 == i && (2 * i + 1) % 2 == 1);
        assert(s[2 * i] == u[i] % 0x100);
        assert(s[2 * i + 1] == u[i] / 0x100);
        assert(le16(s, 2 * i) == u[i]);
    }
    assert(units(s) =~= u);
}

/// The first zero of `s` followed by a zero and `rest` is the one behind `s`.
proof fn lemma_zero_behind(s: Seq<u16>, rest: Seq<u16>)
    requires
        forall|i: int| 0 <= i < s.len() ==> s[i] != 0,
    ensures
        zero_at(s.push(0) + rest) == s.len(),
    decreases s.len(),
{
    let u = s.push(0) + rest;
    if s.len() > 0 {
        assert(u[0] == s[0]);
        assert(u.drop_first() =~= s.drop_first().push(0) + rest);
        lemma_zero_behind(s.drop_first(), rest);
    } else {
        assert(u[0] == 0);
    }
}

/// String `n` of a tag that was made of `strings` is `strings[n]`, and there is
/// nothing behind the last one.
pub proof fn lemma_strings_come_back(strings: Seq<Seq<u16>>, n: nat)
    requires
        forall|k: int, i: int|
            0 <= k < strings.len() && 0 <= i < strings[k].len() ==> #[trigger] strings[k][i] != 0,
    ensures
        nth_string(units(utf16le(joined(strings))), n) == (if n < strings.len() {
            strings[n as int]
        } else {
            Seq::empty()
        }),
{
    lemma_units_come_back(joined(strings));
    lemma_nth_of_joined(strings, n);
}

proof fn lemma_nth_of_joined(strings: Seq<Seq<u16>>, n: nat)
    requires
        forall|k: int, i: int|
            0 <= k < strings.len() && 0 <= i < strings[k].len() ==> #[trigger] strings[k][i] != 0,
    ensures
        nth_string(joined(strings), n) == (if n < strings.len() {
            strings[n as int]
        } else {
            Seq::empty()
        }),
    decreases strings.len(),
{
    let u = joined(strings);
    if strings.len() == 0 {
        lemma_past_end(n);
    } else {
        let rest = strings.drop_first();
        lemma_zero_behind(strings[0], joined(rest));
        if n == 0 {
            assert(u.take(strings[0].len() as int) =~= strings[0]);
        } else {
            assert(u.skip((strings[0].len() + 1) as int) =~= joined(rest));
            assert forall|k: int, i: int|
                0 <= k < rest.len() && 0 <= i < rest[k].len() implies #[trigger] rest[k][i]
                != 0 by {
                assert(strings[k + 1][i] != 0);
            }
            lemma_nth_of_joined(rest, (n - 1) as nat);
        }
    }
}

/// A string never holds a zero.
pub proof fn lemma_no_zero_inside(u: Seq<u16>, n: nat)
    ensures
        forall|i: int| 0 <= i < nth_string(u, n).len() ==> #[trigger] nth_string(u, n)[i] != 0,
    decreases n,
{
    lemma_zero_at(u);
    if n == 0 {
        assert forall|i: int| 0 <= i < nth_string(u, n).len() implies #[trigger] nth_string(
            u,
            n,
        )[i] != 0 by {
            assert(nth_string(u, n)[i] == u[i]);
        }
    } else if zero_at(u) < u.len() {
        let rest = u.skip(zero_at(u) + 1);
        lemma_no_zero_inside(rest, (n - 1) as nat);
        assert(nth_string(u, n) == nth_string(rest, (n - 1) as nat));
    }
}

/// A tag whose offset no `usize` can hold is not found, just as one that lies
/// behind the end of the file.
pub proof fn lemma_unreachable_tag(d: Seq<u8>, off: int)
    requires
        d.len() <= usize::MAX,
        off > usize::MAX,
    ensures
        !has_gd3(d, offset_of(off) as int),
        !has_gd3(d, off),
{
}

/// A tag of any size is found wherever it stands: "Gd3 ", four bytes of version,
/// the length of the text and the text. [`Gd3::parse`] gives exactly the text.
pub proof fn lemma_written_tag_is_found<'a>(
    d: &'a [u8],
    off: usize,
    r: Option<Gd3<'a>>,
    text: Seq<u8>,
)
    requires
        call_ensures(Gd3::parse, (d, off), r),
        stands_at(d@, off as int, seq![0x47u8, 0x64, 0x33, 0x20]),
        holds32(d@, off + 8, text.len() as int),
        stands_at(d@, off + 12, text),
    ensures
        r matches Some(g) && g@ == text,
{
    lemma_tag_bytes(d@, off as int);
    lemma_field_comes_back(d@, off + 8, text.len() as int);
}

/// There is no tag at `off` where the bytes there are not "Gd3 ", or where the
/// file ends before the text does: [`Gd3::parse`] then gives nothing.
pub proof fn lemma_no_tag_is_made_up<'a>(d: &'a [u8], off: usize, r: Option<Gd3<'a>>, len: int)
    requires
        call_ensures(Gd3::parse, (d, off), r),
        ({
            ||| off + 12 > d@.len()
            ||| !stands_at(d@, off as int, seq![0x47u8, 0x64, 0x33, 0x20])
            ||| holds32(d@, off + 8, len) && off + 12 + len > d@.len()
        }),
    ensures
        r is None,
{
    if off + 12 <= d@.len() {
        lemma_tag_bytes(d@, off as int);
        lemma_field_comes_back(d@, off + 8, len);
    }
}

/// The identification is the four bytes of "Gd3 ".
proof fn lemma_tag_bytes(d: Seq<u8>, off: int)
    requires
        0 <= off && off + 4 <= d.len(),
    ensures
        stands_at(d, off, seq![0x47u8, 0x64, 0x33, 0x20]) <==> d.subrange(off, off + 4)
            == GD3_MAGIC@,
{
    let m = GD3_MAGIC@;
    assert(m.len() == 4 && m[0] == 0x47 && m[1] == 0x64 && m[2] == 0x33 && m[3] == 0x20);
    assert(m =~= seq![0x47u8, 0x64, 0x33, 0x20]);
}

/// The strings of a tag come back from [`Gd3::string`]: string `n` of a text that
/// was made of `strings`, each with a zero behind it, is `strings[n]`. Units
/// behind the last zero are one more string, an odd byte at the end belongs to
/// no string, and behind that every string is empty.
pub proof fn lemma_written_strings_come_back<'a>(
    g: &Gd3<'a>,
    n: usize,
    v: Vec<u16>,
    strings: Seq<Seq<u16>>,
    rest: Seq<u16>,
    odd: Seq<u8>,
)
    requires
        call_ensures(Gd3::string, (g, n), v),
        forall|k: int, i: int|
            0 <= k < strings.len() && 0 <= i < strings[k].len() ==> #[trigger] strings[k][i] != 0,
        forall|i: int| 0 <= i < rest.len() ==> rest[i] != 0,
        odd.len() <= 1,
        g@ == utf16le(joined(strings) + rest) + odd,
    ensures
        v@ == if n < strings.len() {
            strings[n as int]
        } else if n == strings.len() {
            rest
        } else {
            Seq::empty()
        },
{
    let u = joined(strings) + rest;
    lemma_odd_byte_is_left_out(u, odd);
    lemma_nth_of_text(strings, rest, n as nat);
}

/// Code units survive the way into bytes and back, with an odd byte behind them.
proof fn lemma_odd_byte_is_left_out(u: Seq<u16>, odd: Seq<u8>)
    requires
        odd.len() <= 1,
    ensures
        units(utf16le(u) + odd) == u,
{
    let s = utf16le(u);
    lemma_units_come_back(u);
    assert((s + odd).len() / 2 == u.len());
    assert forall|i: int| 0 <= i < u.len() implies units(s + odd)[i] == u[i] by {
        assert(units(s)[i] == u[i]);
        assert((s + odd)[2 * i] == s[2 * i] && (s + odd)[2 * i + 1] == s[2 * i + 1]);
    }
    assert(units(s + odd) =~= u);
}

/// A text without a zero ends where it ends.
proof fn lemma_no_zero_to_find(u: Seq<u16>)
    requires
        forall|i: int| 0 <= i < u.len() ==> u[i] != 0,
    ensures
        zero_at(u) == u.len(),
{
    lemma_zero_at(u);
}

proof fn lemma_nth_of_text(strings: Seq<Seq<u16>>, rest: Seq<u16>, n: nat)
    requires
        forall|k: int, i: int|
            0 <= k < strings.len() && 0 <= i < strings[k].len() ==> #[trigger] strings[k][i] != 0,
        forall|i: int| 0 <= i < rest.len() ==> rest[i] != 0,
    ensures
        nth_string(joined(strings) + rest, n) == if n < strings.len() {
            strings[n as int]
        } else if n == strings.len() {
            rest
        } else {
            Seq::empty()
        },
    decreases strings.len(),
{
    let u = joined(strings) + rest;
    if strings.len() == 0 {
        assert(u =~= rest);
        lemma_no_zero_to_find(rest);
        assert(rest.take(rest.len() as int) =~= rest);
    } else {
        let tail = strings.drop_first();
        let behind = joined(tail) + rest;
        assert(u =~= strings[0].push(0) + behind);
        lemma_zero_behind(strings[0], behind);
        if n == 0 {
            assert(u.take(strings[0].len() as int) =~= strings[0]);
        } else {
            assert(u.skip((strings[0].len() + 1) as int) =~= behind);
            assert forall|k: int, i: int|
                0 <= k < tail.len() && 0 <= i < tail[k].len() implies #[trigger] tail[k][i]
                != 0 by {
                assert(strings[k + 1][i] != 0);
            }
            lemma_nth_of_text(tail, rest, (n - 1) as nat);
        }
    }
}

} // verus!
