//! Typed arrays over a byte buffer: element kinds, views into a buffer, and
//! the little-endian layout of their elements.
use vstd::prelude::*;
use crate::media::{le16, le32};

verus! {

#[derive(Clone, Copy, Debug, PartialEq, Eq, Structural)]
pub enum TypedArrayKind {
    Float32,
    Uint8,
    Uint16,
    Uint32,
}

impl TypedArrayKind {
    /// Bytes that one element takes.
    pub open spec fn bpe(self) -> nat {
        match self {
            TypedArrayKind::Float32 => 4,
            TypedArrayKind::Uint32 => 4,
            TypedArrayKind::Uint16 => 2,
            TypedArrayKind::Uint8 => 1,
        }
    }

    pub open spec fn spec_name(self) -> Seq<char> {
        match self {
            TypedArrayKind::Float32 => "Float32Array"@,
            TypedArrayKind::Uint8 => "Uint8Array"@,
            TypedArrayKind::Uint16 => "Uint16Array"@,
            TypedArrayKind::Uint32 => "Uint32Array"@,
        }
    }

    pub fn bytes_per_element(self) -> (n: usize)
        ensures
            n == self.bpe(),
    {
        match self {
            TypedArrayKind::Float32 => 4,
            TypedArrayKind::Uint32 => 4,
            TypedArrayKind::Uint16 => 2,
            TypedArrayKind::Uint8 => 1,
        }
    }

    /// The script-visible constructor name of the kind.
    pub fn name(self) -> (s: &'static str)
        ensures
            s@ == self.spec_name(),
    {
        match self {
            TypedArrayKind::Float32 => "Float32Array",
            TypedArrayKind::Uint8 => "Uint8Array",
            TypedArrayKind::Uint16 => "Uint16Array",
            TypedArrayKind::Uint32 => "Uint32Array",
        }
    }
}

/// The unsigned little-endian value of the element that starts at `start`;
/// for `Float32` these are the bits of the float.
pub open spec fn element_at(b: Seq<u8>, start: int, kind: TypedArrayKind) -> nat {
    match kind {
        TypedArrayKind::Uint8 => b[start] as nat,
        TypedArrayKind::Uint16 => le16(b, start),
        _ => le32(b, start),
    }
}

/// The buffer with the element at `start` replaced by the low bytes of `raw`,
/// little-endian.
pub open spec fn write_element(b: Seq<u8>, start: int, kind: TypedArrayKind, raw: nat) -> Seq<u8> {
    match kind {
        TypedArrayKind::Uint8 => b.update(start, (raw % 256) as u8),
        TypedArrayKind::Uint16 => b.update(start, (raw % 256) as u8).update(start + 1, ((raw / 256) % 256) as u8),
        _ => b.update(start, (raw % 256) as u8).update(start + 1, ((raw / 256) % 256) as u8).update(
            start + 2,
            ((raw / 65536) % 256) as u8,
        ).update(start + 3, ((raw / 16777216) % 256) as u8),
    }
}

/// `2` to the number of bits an element holds.
pub open spec fn element_modulus(kind: TypedArrayKind) -> nat {
    match kind {
        TypedArrayKind::Uint8 => 256,
        TypedArrayKind::Uint16 => 65536,
        _ => 4294967296,
    }
}

/// A typed view of `length` elements of `kind`, `byte_offset` bytes into a
/// byte buffer. The view does not own the bytes: every read and write is
/// handed the buffer, so any number of views can share one buffer.
#[derive(Clone, Copy, Debug, PartialEq, Eq, Structural)]
pub struct TypedArrayValue {
    pub kind: TypedArrayKind,
    pub byte_offset: usize,
    pub length: usize,
}

impl TypedArrayValue {
    /// The view lies inside the buffer `b`.
    pub open spec fn fits(&self, b: Seq<u8>) -> bool {
        self.byte_offset + self.length * self.kind.bpe() <= b.len()
    }

    /// Where element `i` starts in the buffer.
    pub open spec fn start_of(&self, i: int) -> int {
        self.byte_offset + i * self.kind.bpe()
    }

    /// A zero-filled array of `length` elements, with the buffer of its own
    /// that it views.
    pub fn new(kind: TypedArrayKind, length: usize) -> (r: (Self, Vec<u8>))
        requires
            length * kind.bpe() <= isize::MAX,
        ensures
            r.0.fits(r.1@),
            r.0.kind == kind,
            r.0.byte_offset == 0,
            r.0.length == length,
            r.1@ == Seq::new((length * kind.bpe()) as nat, |i: int| 0u8),
    {
        let bytes: usize = match length.checked_mul(kind.bytes_per_element()) {
            Some(b) => b,
            None => usize::MAX,
        };
        let buffer = vec![0u8; bytes];
        assert(buffer@ =~= Seq::new((length * kind.bpe()) as nat, |i: int| 0u8));
        (TypedArrayValue { kind, byte_offset: 0, length }, buffer)
    }

    /// A view into `buffer`; without a `length`, as many whole elements as fit
    /// after `byte_offset`.
    pub fn from_buffer(buffer: &Vec<u8>, kind: TypedArrayKind, byte_offset: usize, length: Option<usize>) -> (r: Result<Self, String>)
        ensures
            (byte_offset as nat) % kind.bpe() != 0 ==> r is Err && r->Err_0@
                == "RangeError: typed array byteOffset must align to element size"@,
            (byte_offset as nat) % kind.bpe() == 0 && byte_offset > buffer@.len() ==> r is Err && r->Err_0@
                == "RangeError: typed array byteOffset exceeds ArrayBuffer"@,
            (byte_offset as nat) % kind.bpe() == 0 && byte_offset <= buffer@.len() ==> {
                let available = (buffer@.len() - byte_offset) as nat / kind.bpe();
                let n = match length {
                    Some(l) => l as nat,
                    None => available,
                };
                &&& n > available ==> r is Err && r->Err_0@ == "RangeError: typed array length exceeds ArrayBuffer"@
                &&& n <= available ==> (r matches Ok(t) && t.kind == kind && t.byte_offset == byte_offset
                    && t.length == n && t.fits(buffer@))
            },
    {
        let bpe = kind.bytes_per_element();
        if byte_offset % bpe != 0 {
            return Err("RangeError: typed array byteOffset must align to element size".to_owned());
        }
        let buffer_len = buffer.len();
        if byte_offset > buffer_len {
            return Err("RangeError: typed array byteOffset exceeds ArrayBuffer".to_owned());
        }
        let available = (buffer_len - byte_offset) / bpe;
        let length = match length {
            Some(l) => l,
            None => available,
        };
        if length > available {
            return Err("RangeError: typed array length exceeds ArrayBuffer".to_owned());
        }
        proof {
            let rest = (buffer_len - byte_offset) as int;
            let b = bpe as int;
            assert(length * b <= rest) by (nonlinear_arith)
                requires
                    length <= rest / b,
                    b > 0,
                    rest >= 0,
            ;
        }
        Ok(TypedArrayValue { kind, byte_offset, length })
    }

    /// Where element `index` starts; it lies wholly inside the buffer.
    fn elem_start(&self, buffer: &Vec<u8>, index: usize) -> (r: usize)
        requires
            self.fits(buffer@),
            index < self.length,
        ensures
            r == self.start_of(index as int),
            r + self.kind.bpe() <= buffer@.len(),
    {
        let k = self.kind.bytes_per_element();
        let n = buffer.len();
        proof {
            let kk = k as int;
            let l = self.length as int;
            let i = index as int;
            let o = self.byte_offset as int;
            assert(o + i * kk + kk <= n) by (nonlinear_arith)
                requires
                    0 <= i < l,
                    kk > 0,
                    o + l * kk <= n,
            ;
        }
        self.byte_offset + index * k
    }

    /// The stored value of element `index` in `buffer`: its unsigned
    /// little-endian bytes (for `Float32`, the bits of the float); `None` past
    /// the end.
    pub fn get_raw(&self, buffer: &Vec<u8>, index: usize) -> (r: Option<u32>)
        requires
            self.fits(buffer@),
        ensures
            index >= self.length ==> r is None,
            index < self.length ==> (r matches Some(v) && v == element_at(buffer@, self.start_of(index as int), self.kind)),
    {
        if index >= self.length {
            return None;
        }
        let b = buffer;
        let n = b.len();
        match self.kind {
            TypedArrayKind::Uint8 => {
                let start = self.elem_start(b, index);
                Some(b[start] as u32)
            },
            TypedArrayKind::Uint16 => {
                let start = self.elem_start(b, index);
                Some(b[start] as u32 + 256 * (b[start + 1] as u32))
            },
            _ => {
                let start = self.elem_start(b, index);
                Some(
                    b[start] as u32 + 256 * (b[start + 1] as u32) + 65536 * (b[start + 2] as u32) + 16777216 * (
                    b[start + 3] as u32),
                )
            },
        }
    }

    /// Stores the low bytes of `raw` as element `index` of `buffer`,
    /// little-endian; past the end nothing changes.
    pub fn set_raw(&self, buffer: &mut Vec<u8>, index: usize, raw: u32)
        requires
            self.fits(old(buffer)@),
        ensures
            final(buffer)@ == if index < self.length {
                write_element(old(buffer)@, self.start_of(index as int), self.kind, raw as nat)
            } else {
                old(buffer)@
            },
            final(buffer)@.len() == old(buffer)@.len(),
            self.fits(final(buffer)@),
    {
        if index >= self.length {
            return;
        }
        let b0 = (raw % 256) as u8;
        let b1 = ((raw / 256) % 256) as u8;
        let b2 = ((raw / 65536) % 256) as u8;
        let b3 = ((raw / 16777216) % 256) as u8;
        let n = buffer.len();
        let start = self.elem_start(buffer, index);
        match self.kind {
            TypedArrayKind::Uint8 => {
                buffer.set(start, b0);
            },
            TypedArrayKind::Uint16 => {
                buffer.set(start, b0);
                buffer.set(start + 1, b1);
            },
            _ => {
                buffer.set(start, b0);
                buffer.set(start + 1, b1);
                buffer.set(start + 2, b2);
                buffer.set(start + 3, b3);
            },
        }
    }

    /// Bytes the elements take, saturating at `usize::MAX`.
    pub fn byte_length(&self) -> (n: usize)
        ensures
            n == if self.length * self.kind.bpe() <= usize::MAX {
                self.length * self.kind.bpe()
            } else {
                usize::MAX as int
            },
    {
        match self.length.checked_mul(self.kind.bytes_per_element()) {
            Some(b) => b,
            None => usize::MAX,
        }
    }
}

/// A read gives back what a write stored, reduced to the element's width, and
/// a write leaves every other element of the same view as it was.
pub proof fn law_typed_array_write_then_read(t: TypedArrayValue, b: Seq<u8>, i: int, j: int, raw: u32)
    requires
        t.fits(b),
        0 <= i < t.length,
        0 <= j < t.length,
    ensures
        element_at(write_element(b, t.start_of(i), t.kind, raw as nat), t.start_of(i), t.kind) == raw as nat
            % element_modulus(t.kind),
        j != i ==> element_at(write_element(b, t.start_of(i), t.kind, raw as nat), t.start_of(j), t.kind)
            == element_at(b, t.start_of(j), t.kind),
{
    law_views_share_bytes(t, t, b, i, i, raw);
    if j != i {
        lemma_elements_apart(t, i, j);
        law_views_share_bytes(t, t, b, i, j, raw);
    }
}

/// Two different elements of one view do not overlap.
proof fn lemma_elements_apart(t: TypedArrayValue, i: int, j: int)
    requires
        i != j,
    ensures
        t.start_of(i) + t.kind.bpe() <= t.start_of(j) || t.start_of(j) + t.kind.bpe() <= t.start_of(i),
{
    let k = t.kind.bpe() as int;
    if i < j {
        assert(i * k + k <= j * k) by (nonlinear_arith)
            requires
                i < j,
                k > 0,
        ;
    } else {
        assert(j * k + k <= i * k) by (nonlinear_arith)
            requires
                j < i,
                k > 0,
        ;
    }
}

/// Views of one buffer share its bytes. After a write through view `a`, a
/// view `b` of the same buffer still fits it; an element of `b` that covers
/// exactly the bytes written reads back the written value, reduced to the
/// element's width; an element of `b` that shares no byte with them reads what
/// it read before; and a two-byte element reads the little-endian value of the
/// two bytes it covers, whichever view wrote them.
pub proof fn law_views_share_bytes(a: TypedArrayValue, b: TypedArrayValue, buf: Seq<u8>, i: int, j: int, raw: u32)
    requires
        a.fits(buf),
        b.fits(buf),
        0 <= i < a.length,
        0 <= j < b.length,
    ensures
        write_element(buf, a.start_of(i), a.kind, raw as nat).len() == buf.len(),
        b.fits(write_element(buf, a.start_of(i), a.kind, raw as nat)),
        b.start_of(j) == a.start_of(i) && b.kind.bpe() == a.kind.bpe() ==> element_at(
            write_element(buf, a.start_of(i), a.kind, raw as nat),
            b.start_of(j),
            b.kind,
        ) == raw as nat % element_modulus(a.kind),
        b.start_of(j) + b.kind.bpe() <= a.start_of(i) || a.start_of(i) + a.kind.bpe() <= b.start_of(j) ==> element_at(
            write_element(buf, a.start_of(i), a.kind, raw as nat),
            b.start_of(j),
            b.kind,
        ) == element_at(buf, b.start_of(j), b.kind),
        b.kind == TypedArrayKind::Uint16 ==> element_at(
            write_element(buf, a.start_of(i), a.kind, raw as nat),
            b.start_of(j),
            b.kind,
        ) == write_element(buf, a.start_of(i), a.kind, raw as nat)[b.start_of(j)] as nat + 256 * write_element(
            buf,
            a.start_of(i),
            a.kind,
            raw as nat,
        )[b.start_of(j) + 1] as nat,
{
    let ka = a.kind.bpe() as int;
    let kb = b.kind.bpe() as int;
    assert(a.start_of(i) + ka <= buf.len()) by (nonlinear_arith)
        requires
            0 <= i < a.length,
            ka > 0,
            a.byte_offset + a.length * ka <= buf.len(),
            a.start_of(i) == a.byte_offset + i * ka,
    ;
    assert(b.start_of(j) + kb <= buf.len()) by (nonlinear_arith)
        requires
            0 <= j < b.length,
            kb > 0,
            b.byte_offset + b.length * kb <= buf.len(),
            b.start_of(j) == b.byte_offset + j * kb,
    ;
    assert(a.start_of(i) >= 0 && b.start_of(j) >= 0) by (nonlinear_arith)
        requires
            i >= 0,
            j >= 0,
            ka > 0,
            kb > 0,
            a.start_of(i) == a.byte_offset + i * ka,
            b.start_of(j) == b.byte_offset + j * kb,
    ;
    assert((raw % 256) + 256 * ((raw / 256) % 256) == raw % 65536) by (bit_vector);
    assert((raw % 256) + 256 * ((raw / 256) % 256) + 65536 * ((raw / 65536) % 256) + 16777216 * ((raw / 16777216) % 256)
        == raw) by (bit_vector);
    assert(raw as nat % 4294967296 == raw as nat);
}

} // verus!
