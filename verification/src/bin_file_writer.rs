//! The binary container the prover reads: a four-byte magic, a version and
//! a section count, then sections, each an identifier, the byte size of its
//! payload and the payload. Integers are little-endian.
use vstd::prelude::*;
use vstd::string::*;
use crate::error::SetupError;
use vstd::arithmetic::power::pow;

verus! {

/// The `n` low bytes of `v`, least significant first.
pub open spec fn le_bytes(v: nat, n: nat) -> Seq<u8>
    decreases n,
{
    if n == 0 {
        Seq::empty()
    } else {
        seq![(v % 256) as u8] + le_bytes(v / 256, (n - 1) as nat)
    }
}

/// The `n` low bytes of `v`, least significant first.
pub fn le_bytes_exec(v: u64, n: usize) -> (r: Vec<u8>)
    requires
        n <= 8,
    ensures
        r@ == le_bytes(v as nat, n as nat),
{
    let mut r: Vec<u8> = Vec::new();
    let mut x: u64 = v;
    let mut k: usize = 0;
    while k < n
        invariant
            k <= n,
            le_bytes(v as nat, n as nat) == r@ + le_bytes(x as nat, (n - k) as nat),
        decreases n - k,
    {
        let ghost r0 = r@;
        r.push((x % 256) as u8);
        proof {
            assert(le_bytes(x as nat, (n - k) as nat) == seq![(x % 256) as u8] + le_bytes((x / 256) as nat, (n - k - 1) as nat));
            assert(r0 + (seq![(x % 256) as u8] + le_bytes((x / 256) as nat, (n - k - 1) as nat)) =~= r@ + le_bytes(
                (x / 256) as nat,
                (n - k - 1) as nat,
            ));
        }
        x = x / 256;
        k = k + 1;
    }
    proof {
        assert(r@ + le_bytes(x as nat, 0) =~= r@);
    }
    r
}

/// A binary file being written: its bytes so far, the sections it
/// announces and has finished, and where the open section starts.
pub struct BinFileWriter {
    pub bytes: Vec<u8>,
    pub n_sections: u32,
    pub sections_written: u32,
    pub section_start: Option<usize>,
}

/// Appends `more` to `bytes`.
pub(crate) fn append_bytes(bytes: &mut Vec<u8>, more: &[u8])
    ensures
        final(bytes)@ == old(bytes)@ + more@,
{
    let mut k: usize = 0;
    while k < more.len()
        invariant
            k <= more@.len(),
            bytes@ == old(bytes)@ + more@.subrange(0, k as int),
        decreases more.len() - k,
    {
        bytes.push(more[k]);
        proof {
            assert(more@.subrange(0, k as int + 1) =~= more@.subrange(0, k as int).push(more@[k as int]));
        }
        k = k + 1;
    }
    proof {
        assert(more@.subrange(0, more@.len() as int) =~= more@);
    }
}

impl BinFileWriter {
    /// A file of type `file_type` (four bytes), `version` and `n_sections`.
    pub fn new(file_type: &str, version: u32, n_sections: u32) -> (w: Self)
        requires
            file_type.spec_bytes().len() == 4,
        ensures
            w.bytes@ == file_type.spec_bytes() + le_bytes(version as nat, 4) + le_bytes(n_sections as nat, 4),
            w.n_sections == n_sections,
            w.sections_written == 0,
            w.section_start is None,
    {
        let mut bytes: Vec<u8> = Vec::new();
        append_bytes(&mut bytes, file_type.as_bytes());
        append_bytes(&mut bytes, le_bytes_exec(version as u64, 4).as_slice());
        append_bytes(&mut bytes, le_bytes_exec(n_sections as u64, 4).as_slice());
        proof {
            assert(bytes@ =~= file_type.spec_bytes() + le_bytes(version as nat, 4) + le_bytes(n_sections as nat, 4));
        }
        BinFileWriter { bytes, n_sections, sections_written: 0, section_start: None }
    }

    /// Appends one byte.
    pub fn write_u8(&mut self, value: u8)
        ensures
            final(self).bytes@ == old(self).bytes@.push(value),
            final(self).n_sections == old(self).n_sections,
            final(self).sections_written == old(self).sections_written,
            final(self).section_start == old(self).section_start,
    {
        self.bytes.push(value);
    }

    /// Appends a 16-bit integer.
    pub fn write_u16(&mut self, value: u16)
        ensures
            final(self).bytes@ == old(self).bytes@ + le_bytes(value as nat, 2),
            final(self).n_sections == old(self).n_sections,
            final(self).sections_written == old(self).sections_written,
            final(self).section_start == old(self).section_start,
    {
        append_bytes(&mut self.bytes, le_bytes_exec(value as u64, 2).as_slice());
    }

    /// Appends a 32-bit integer.
    pub fn write_u32(&mut self, value: u32)
        ensures
            final(self).bytes@ == old(self).bytes@ + le_bytes(value as nat, 4),
            final(self).n_sections == old(self).n_sections,
            final(self).sections_written == old(self).sections_written,
            final(self).section_start == old(self).section_start,
    {
        append_bytes(&mut self.bytes, le_bytes_exec(value as u64, 4).as_slice());
    }

    /// Appends a 64-bit integer.
    pub fn write_u64(&mut self, value: u64)
        ensures
            final(self).bytes@ == old(self).bytes@ + le_bytes(value as nat, 8),
            final(self).n_sections == old(self).n_sections,
            final(self).sections_written == old(self).sections_written,
            final(self).section_start == old(self).section_start,
    {
        append_bytes(&mut self.bytes, le_bytes_exec(value, 8).as_slice());
    }

    /// Appends the UTF-8 bytes of `s` and a terminating zero.
    pub fn write_string(&mut self, s: &str)
        ensures
            final(self).bytes@ == old(self).bytes@ + s.spec_bytes() + seq![0u8],
            final(self).n_sections == old(self).n_sections,
            final(self).sections_written == old(self).sections_written,
            final(self).section_start == old(self).section_start,
    {
        append_bytes(&mut self.bytes, s.as_bytes());
        self.bytes.push(0u8);
    }

    /// Appends raw bytes.
    pub fn write_bytes(&mut self, data: &[u8])
        ensures
            final(self).bytes@ == old(self).bytes@ + data@,
            final(self).n_sections == old(self).n_sections,
            final(self).sections_written == old(self).sections_written,
            final(self).section_start == old(self).section_start,
    {
        append_bytes(&mut self.bytes, data);
    }

    /// Opens section `section_id`: its identifier and a zero size, to be
    /// patched when it ends. Refused while a section is open.
    pub fn start_write_section(&mut self, section_id: u32) -> (r: Result<(), SetupError>)
        ensures
            final(self).n_sections == old(self).n_sections,
            final(self).sections_written == old(self).sections_written,
            match r {
                Ok(()) => {
                    &&& old(self).section_start is None
                    &&& final(self).section_start == Some(old(self).bytes@.len() as usize)
                    &&& final(self).bytes@ == old(self).bytes@ + le_bytes(section_id as nat, 4) + le_bytes(0, 8)
                },
                Err(e) => {
                    &&& old(self).section_start is Some
                    &&& e == SetupError::SectionAlreadyOpen
                    &&& *final(self) == *old(self)
                },
            },
    {
        if self.section_start.is_some() {
            return Err(SetupError::SectionAlreadyOpen);
        }
        let pos = self.bytes.len();
        self.section_start = Some(pos);
        self.write_u32(section_id);
        self.write_u64(0);
        Ok(())
    }

    /// Closes the open section, writing the size of its payload into its
    /// header. Refused when no section is open.
    pub fn end_write_section(&mut self) -> (r: Result<(), SetupError>)
        requires
            old(self).section_start matches Some(s) ==> s + 12 <= old(self).bytes@.len(),
            old(self).section_start is Some ==> old(self).sections_written < u32::MAX,
        ensures
            final(self).n_sections == old(self).n_sections,
            match r {
                Ok(()) => {
                    let s = old(self).section_start.unwrap() as int;
                    let size = (old(self).bytes@.len() - s - 12) as nat;
                    &&& old(self).section_start is Some
                    &&& final(self).section_start is None
                    &&& final(self).sections_written == old(self).sections_written + 1
                    &&& final(self).bytes@ == old(self).bytes@.subrange(0, s + 4) + le_bytes(size, 8)
                        + old(self).bytes@.subrange(s + 12, old(self).bytes@.len() as int)
                },
                Err(e) => {
                    &&& old(self).section_start is None
                    &&& e == SetupError::NoSectionOpen
                    &&& *final(self) == *old(self)
                },
            },
    {
        let start = match self.section_start {
            Some(s) => s,
            None => {
                return Err(SetupError::NoSectionOpen);
            },
        };
        let ghost b0 = self.bytes@;
        let size = (self.bytes.len() - start - 12) as u64;
        let sb = le_bytes_exec(size, 8);
        let mut k: usize = 0;
        assert(b0.len() == self.bytes.len());
        while k < 8
            invariant
                k <= 8,
                start + 12 <= b0.len(),
                b0.len() <= usize::MAX,
                self.n_sections == old(self).n_sections,
                self.sections_written == old(self).sections_written,
                self.section_start == old(self).section_start,
                self.section_start == Some(start),
                old(self).sections_written < u32::MAX,
                b0 == old(self).bytes@,
                sb@ == le_bytes(size as nat, 8),
                self.bytes@.len() == b0.len(),
                forall|j: int| 0 <= j < b0.len() ==> #[trigger] self.bytes@[j] == if start + 4 <= j < start + 4 + k {
                    sb@[j - start - 4]
                } else {
                    b0[j]
                },
            decreases 8 - k,
        {
            proof {
                assert(le_bytes(size as nat, 8).len() == 8) by {
                    lemma_le_bytes_len(size as nat, 8);
                }
            }
            self.bytes.set(start + 4 + k, sb[k]);
            k = k + 1;
        }
        proof {
            lemma_le_bytes_len(size as nat, 8);
            assert(self.bytes@ =~= b0.subrange(0, start + 4) + le_bytes(size as nat, 8) + b0.subrange(start + 12, b0.len() as int));
        }
        self.section_start = None;
        self.sections_written = self.sections_written + 1;
        Ok(())
    }

    /// The bytes of the file, and whether every announced section was written.
    pub fn close(self) -> (r: (Vec<u8>, bool))
        ensures
            r.0@ == self.bytes@,
            r.1 == (self.sections_written == self.n_sections),
    {
        let complete = self.sections_written == self.n_sections;
        (self.bytes, complete)
    }
}

/// `le_bytes` has the length asked for.
pub proof fn lemma_le_bytes_len(v: nat, n: nat)
    ensures
        le_bytes(v, n).len() == n,
    decreases n,
{
    if n > 0 {
        lemma_le_bytes_len(v / 256, (n - 1) as nat);
    }
}

/// The number that little-endian bytes `b` hold.
pub open spec fn le_value(b: Seq<u8>) -> nat
    decreases b.len(),
{
    if b.len() == 0 {
        0
    } else {
        b[0] as nat + 256 * le_value(b.drop_first())
    }
}

/// Reading back what was written: the `n` bytes written for `v` hold `v`
/// modulo `256^n`, so a value that fits is read back unchanged.
pub proof fn lemma_le_bytes_value(v: nat, n: nat)
    ensures
        le_value(le_bytes(v, n)) == v % (pow(256, n) as nat),
        v < pow(256, n) ==> le_value(le_bytes(v, n)) == v,
    decreases n,
{
    reveal(pow);
    vstd::arithmetic::power::lemma_pow_positive(256, n);
    if n == 0 {
        assert(le_bytes(v, n) =~= Seq::<u8>::empty());
    } else {
        let m = (n - 1) as nat;
        lemma_le_bytes_value(v / 256, m);
        vstd::arithmetic::power::lemma_pow_positive(256, m);
        assert(le_bytes(v, n).drop_first() =~= le_bytes(v / 256, m));
        vstd::arithmetic::div_mod::lemma_mod_breakdown(v as int, 256, pow(256, m));
        assert(pow(256, n) == 256 * pow(256, m));
    }
    if v < pow(256, n) {
        vstd::arithmetic::div_mod::lemma_small_mod(v, pow(256, n) as nat);
    }
}

} // verus!
