//! A bounds-checked, read-only snapshot of a window of foreign memory.

use vstd::prelude::*;

verus! {

/// `256^n`.
pub open spec fn byte_pow(n: nat) -> nat
    decreases n,
{
    if n == 0 {
        1
    } else {
        256 * byte_pow((n - 1) as nat)
    }
}

/// The unsigned little-endian number that the bytes `s` encode.
pub open spec fn le_value(s: Seq<u8>) -> nat
    decreases s.len(),
{
    if s.len() == 0 {
        0
    } else {
        s[0] as nat + 256 * le_value(s.drop_first())
    }
}

/// A copy of the bytes `[base, base + bytes.len())` of an address space.
pub struct ForeignMemory {
    pub base: u64,
    pub bytes: Vec<u8>,
}

impl ForeignMemory {
    /// The window does not run past the end of the address space.
    pub open spec fn wf(&self) -> bool {
        self.base as int + self.bytes@.len() <= u64::MAX
    }

    /// The `n` bytes at address `a` all lie inside the window.
    pub open spec fn covers(&self, a: int, n: int) -> bool {
        self.base <= a && a + n <= self.base + self.bytes@.len()
    }

    /// The `n` bytes at address `a`.
    pub open spec fn bytes_at(&self, a: int, n: int) -> Seq<u8> {
        self.bytes@.subrange(a - self.base, a - self.base + n)
    }

    /// The little-endian integer of `n` bytes at `a`, if they are in the window.
    pub open spec fn spec_read(&self, a: int, n: int) -> Option<u64> {
        if self.covers(a, n) {
            Some(le_value(self.bytes_at(a, n)) as u64)
        } else {
            None
        }
    }

    /// The pointer-sized word at `a`.
    pub open spec fn spec_word(&self, a: int) -> Option<u64> {
        self.spec_read(a, 8)
    }

    /// The 32-bit signed integer at `a`.
    pub open spec fn spec_int(&self, a: int) -> Option<i32> {
        match self.spec_read(a, 4) {
            Some(v) => Some(v as u32 as i32),
            None => None,
        }
    }

    /// Some index at or after `from` holds a NUL byte.
    pub open spec fn has_nul(&self, from: int) -> bool {
        exists|k: int| from <= k < self.bytes@.len() && #[trigger] self.bytes@[k] == 0
    }

    /// The index of the first NUL byte at or after `from`.
    pub open spec fn first_nul(&self, from: int) -> int {
        choose|k: int|
            from <= k < self.bytes@.len() && #[trigger] self.bytes@[k] == 0 && forall|j: int|
                from <= j < k ==> self.bytes@[j] != 0
    }

    /// The NUL-terminated byte string at `a`: empty for a null pointer or
    /// where no terminator lies inside the window.
    pub open spec fn spec_cstr(&self, a: int) -> Seq<u8> {
        if a != 0 && self.covers(a, 1) && self.has_nul(a - self.base) {
            self.bytes@.subrange(a - self.base, self.first_nul(a - self.base))
        } else {
            Seq::empty()
        }
    }

    pub fn new(base: u64, bytes: Vec<u8>) -> (r: Option<ForeignMemory>)
        ensures
            match r {
                Some(m) => m.base == base && m.bytes@ == bytes@ && m.wf(),
                None => base as int + bytes@.len() > u64::MAX,
            },
    {
        if bytes.len() as u64 <= u64::MAX - base {
            Some(ForeignMemory { base, bytes })
        } else {
            None
        }
    }

    /// Reads the little-endian integer of `n` bytes at `a`.
    pub fn read(&self, a: u64, n: u64) -> (r: Option<u64>)
        requires
            self.wf(),
            n <= 8,
        ensures
            r == self.spec_read(a as int, n as int),
    {
        if a < self.base || n > self.bytes.len() as u64 || a - self.base > self.bytes.len() as u64 - n {
            return None;
        }
        let start: usize = (a - self.base) as usize;
        let ghost s = self.bytes_at(a as int, n as int);
        let len: usize = self.bytes.len();
        let mut k: usize = n as usize;
        let mut v: u64 = 0;
        while k > 0
            invariant
                0 <= k <= n <= 8,
                start + n <= len,
                len == self.bytes@.len(),
                s == self.bytes@.subrange(start as int, start + n),
                v == le_value(s.subrange(k as int, n as int)),
                v < byte_pow((n - k) as nat),
            decreases k,
        {
            let b = self.bytes[start + (k - 1)];
            proof {
                let t = s.subrange(k - 1, n as int);
                assert(t.drop_first() =~= s.subrange(k as int, n as int));
                let p = byte_pow((n - k) as nat);
                assert(byte_pow((n - k + 1) as nat) == 256 * p);
                assert(b as int + 256 * v < 256 * p) by (nonlinear_arith)
                    requires
                        v < p,
                        b < 256,
                ;
                reveal_with_fuel(byte_pow, 9);
                assert(byte_pow(8) == 18446744073709551616);
                lemma_byte_pow_mono((n - k + 1) as nat, 8);
            }
            v = b as u64 + 256 * v;
            k = k - 1;
        }
        assert(s.subrange(0, n as int) =~= s);
        Some(v)
    }

    /// Reads the pointer-sized word at `a`.
    pub fn read_word(&self, a: u64) -> (r: Option<u64>)
        requires
            self.wf(),
        ensures
            r == self.spec_word(a as int),
    {
        self.read(a, 8)
    }

    /// Reads the 32-bit signed integer at `a`.
    pub fn read_int(&self, a: u64) -> (r: Option<i32>)
        requires
            self.wf(),
        ensures
            r == self.spec_int(a as int),
    {
        match self.read(a, 4) {
            Some(v) => Some(v as u32 as i32),
            None => None,
        }
    }

    /// Copies the NUL-terminated byte string at `a`.
    pub fn read_cstr(&self, a: u64) -> (r: Vec<u8>)
        requires
            self.wf(),
        ensures
            r@ == self.spec_cstr(a as int),
    {
        let mut out: Vec<u8> = Vec::new();
        if a == 0 || a < self.base || a - self.base >= self.bytes.len() as u64 {
            return out;
        }
        let start: usize = (a - self.base) as usize;
        let mut i: usize = start;
        while i < self.bytes.len()
            invariant
                start <= i <= self.bytes@.len(),
                start == a - self.base,
                a != 0,
                out@ == self.bytes@.subrange(start as int, i as int),
                forall|j: int| start <= j < i ==> self.bytes@[j] != 0,
            decreases self.bytes@.len() - i,
        {
            if self.bytes[i] == 0 {
                proof {
                    let st = start as int;
                    assert(self.has_nul(st));
                    assert(st <= i < self.bytes@.len() && self.bytes@[i as int] == 0 && forall|j: int|
                        st <= j < i ==> self.bytes@[j] != 0);
                    assert(exists|k: int|
                        st <= k < self.bytes@.len() && #[trigger] self.bytes@[k] == 0 && forall|j: int|
                            st <= j < k ==> self.bytes@[j] != 0);
                    let k = self.first_nul(st);
                    assert(st <= k < self.bytes@.len() && self.bytes@[k] == 0);
                    if k < i {
                        assert(self.bytes@[k] != 0);
                    } else if k > i {
                        assert(self.bytes@[i as int] != 0);
                    }
                    assert(k == i);
                    assert(self.covers(a as int, 1));
                    assert(self.spec_cstr(a as int) =~= out@);
                }
                return out;
            }
            out.push(self.bytes[i]);
            i = i + 1;
        }
        Vec::new()
    }
}

proof fn lemma_byte_pow_mono(a: nat, b: nat)
    requires
        a <= b,
    ensures
        byte_pow(a) <= byte_pow(b),
    decreases b - a,
{
    if a < b {
        lemma_byte_pow_mono(a, (b - 1) as nat);
    }
}

} // verus!
