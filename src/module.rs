//! Loaded modules: their address ranges, the registry filled while the
//! loader enumerates them, and the signature search within one of them.

use vstd::prelude::*;
use vstd::string::StringSliceAdditionalSpecFns;
use vstd::utf8::encode_utf8;
use vstd::arithmetic::div_mod::{lemma_fundamental_div_mod, lemma_mod_multiples_basic};
use crate::pattern::{
    parse_spec, parse_pattern, first_match, is_first_match, matches_at, regex_accepts, regex_source,
};

verus! {

/// The program-header type of a segment that is mapped at load time.
pub const LOADABLE_SEGMENT: u32 = 1;

/// One program header of a loaded image.
pub struct Segment {
    pub kind: u32,
    pub vaddr: usize,
    pub memsz: usize,
}

/// What the loader reports of one image: its load address, its name where
/// that is readable text, and its program headers.
pub struct ModuleInfo {
    pub address: usize,
    pub name: Option<String>,
    pub segments: Vec<Segment>,
}

/// One binary image mapped into the process.
pub struct Module {
    pub address: usize,
    pub size: usize,
    pub name: String,
}

/// The smallest multiple of `p` that is at least `a`.
pub open spec fn round_up(a: int, p: int) -> int {
    if a % p == 0 {
        a
    } else {
        a - a % p + p
    }
}

/// The page-rounded end of the loadable segment among `segs` that ends last,
/// or `None` where none is loadable.
pub open spec fn span(segs: Seq<Segment>, p: int) -> Option<int>
    decreases segs.len(),
{
    if segs.len() == 0 {
        None
    } else {
        let s = segs.last();
        let rest = span(segs.drop_last(), p);
        if s.kind != LOADABLE_SEGMENT {
            rest
        } else {
            let e = round_up(s.vaddr + s.memsz, p);
            match rest {
                Some(m) => Some(if m < e { e } else { m }),
                None => Some(e),
            }
        }
    }
}

/// A module is made of `info`: its name is readable, it has a loadable
/// segment, and its range fits in the address space.
pub open spec fn accepts(info: &ModuleInfo, p: int) -> bool {
    &&& info.name is Some
    &&& span(info.segments@, p) is Some
    &&& info.address + span(info.segments@, p)->0 <= usize::MAX
}

/// `t` is a suffix of `s`.
pub open spec fn ends_with(s: Seq<u8>, t: Seq<u8>) -> bool {
    t.len() <= s.len() && s.subrange(s.len() - t.len(), s.len() as int) == t
}

proof fn lemma_round_up(a: int, p: int)
    requires
        p > 0,
        a >= 0,
    ensures
        round_up(a, p) % p == 0,
        a <= round_up(a, p) < a + p,
{
    lemma_fundamental_div_mod(a, p);
    let q = a / p;
    if a % p != 0 {
        assert(a - a % p + p == (q + 1) * p) by (nonlinear_arith)
            requires
                a == p * q + a % p,
        ;
        lemma_mod_multiples_basic(q + 1, p);
    } else {
    }
}

proof fn lemma_span_aligned(segs: Seq<Segment>, p: int)
    requires
        p > 0,
    ensures
        span(segs, p) matches Some(m) ==> m % p == 0 && m >= 0,
    decreases segs.len(),
{
    if segs.len() > 0 {
        lemma_span_aligned(segs.drop_last(), p);
        let s = segs.last();
        lemma_round_up(s.vaddr + s.memsz, p);
    }
}

/// The offset of a returned address from `base`.
pub open spec fn offset_from(base: usize, r: Option<usize>) -> Option<usize> {
    match r {
        Some(a) => Some((a - base) as usize),
        None => None,
    }
}

impl Module {
    pub open spec fn wf(&self) -> bool {
        self.address + self.size <= usize::MAX
    }

    /// Describes the image that `info` reports, its size the page-rounded
    /// end of its last loadable segment. `None` where the name is not
    /// readable text, no segment is loadable, or the range would wrap.
    pub fn new(info: &ModuleInfo, pagesize: usize) -> (r: Option<Module>)
        requires
            pagesize > 0,
        ensures
            accepts(info, pagesize as int) <==> r is Some,
            r matches Some(m) ==> {
                &&& m.address == info.address
                &&& m.size == span(info.segments@, pagesize as int)->0
                &&& m.name@ == info.name->0@
                &&& m.size % pagesize == 0
                &&& m.wf()
            },
    {
        let name = match &info.name {
            Some(n) => n.clone(),
            None => {
                return None;
            },
        };
        let p = pagesize;
        let mut best: usize = 0;
        let mut found: bool = false;
        let mut i: usize = 0;
        while i < info.segments.len()
            invariant
                p == pagesize > 0,
                i <= info.segments@.len(),
                found == span(info.segments@.take(i as int), p as int) is Some,
                found ==> best == span(info.segments@.take(i as int), p as int)->0,
            decreases info.segments@.len() - i,
        {
            let s = &info.segments[i];
            proof {
                assert(info.segments@.take(i + 1).drop_last() =~= info.segments@.take(i as int));
                lemma_round_up(s.vaddr + s.memsz, p as int);
            }
            if s.kind == LOADABLE_SEGMENT {
                let end = match s.vaddr.checked_add(s.memsz) {
                    Some(e) => e,
                    None => {
                        proof {
                            lemma_span_only_grows(info.segments@, i as int + 1, p as int);
                            assert(info.segments@[i as int] == *s);
                        }
                        return None;
                    },
                };
                let rem = end % p;
                assert(rem <= end) by (nonlinear_arith)
                    requires
                        rem == end % p,
                        p > 0,
                ;
                let e = if rem == 0 {
                    end
                } else {
                    match (end - rem).checked_add(p) {
                        Some(e) => e,
                        None => {
                            proof { lemma_span_only_grows(info.segments@, i as int + 1, p as int) }
                            return None;
                        },
                    }
                };
                if !found || best < e {
                    best = e;
                }
                found = true;
            }
            i = i + 1;
        }
        assert(info.segments@.take(i as int) =~= info.segments@);
        if !found {
            return None;
        }
        if best > usize::MAX - info.address {
            return None;
        }
        proof { lemma_span_aligned(info.segments@, p as int) }
        Some(Module { address: info.address, size: best, name })
    }

    /// Finds the first window of the module's bytes that fits `pattern` and
    /// returns its address. `memory` holds the bytes of
    /// `[address, address + size)`. `None` where the pattern text is
    /// malformed, where it matches nowhere, or where the search expression
    /// built from it is refused; a returned address is always the lowest
    /// match.
    pub fn find_pattern(&self, memory: &[u8], pattern: &str) -> (r: Option<usize>)
        requires
            self.wf(),
            memory@.len() == self.size,
        ensures
            parse_spec(pattern.spec_bytes()) is None ==> r is None,
            r matches Some(a) ==> {
                &&& parse_spec(pattern.spec_bytes()) is Some
                &&& self.address <= a
                &&& is_first_match(
                    parse_spec(pattern.spec_bytes())->0,
                    memory@,
                    Some((a - self.address) as usize),
                )
            },
            parse_spec(pattern.spec_bytes()) matches Some(pat) && (forall|j: int|
                !#[trigger] matches_at(pat, memory@, j)) ==> r is None,
            ({
                let parsed = parse_spec(pattern.spec_bytes());
                parsed is Some && regex_accepts(regex_source(parsed->0)) ==> is_first_match(
                    parsed->0,
                    memory@,
                    offset_from(self.address, r),
                )
            }),
            ({
                let parsed = parse_spec(pattern.spec_bytes());
                parsed is Some && !regex_accepts(regex_source(parsed->0)) ==> r is None
            }),
    {
        let pat = parse_pattern(pattern)?;
        match first_match(&pat, memory) {
            Some(offset) => Some(self.address + offset),
            None => None,
        }
    }
}

proof fn lemma_span_only_grows(segs: Seq<Segment>, i: int, p: int)
    requires
        0 < i <= segs.len(),
        p > 0,
        segs[i - 1].kind == LOADABLE_SEGMENT,
    ensures
        span(segs, p) matches Some(m) && m >= round_up(segs[i - 1].vaddr + segs[i - 1].memsz, p),
    decreases segs.len(),
{
    if i < segs.len() {
        lemma_span_only_grows(segs.drop_last(), i, p);
    }
}

/// The modules found so far in one enumeration pass, newest first.
pub struct CallbackContext {
    pub modules: Vec<Module>,
    pub pagesize: usize,
}

impl CallbackContext {
    /// Every module's size is a whole number of pages and its range fits.
    pub open spec fn wf(&self) -> bool {
        &&& self.pagesize > 0
        &&& forall|i: int|
            0 <= i < self.modules@.len() ==> (#[trigger] self.modules@[i]).size % self.pagesize
                == 0 && self.modules@[i].wf()
    }

    pub fn new(pagesize: usize) -> (r: CallbackContext)
        requires
            pagesize > 0,
        ensures
            r.wf(),
            r.pagesize == pagesize,
            r.modules@.len() == 0,
    {
        CallbackContext { modules: Vec::new(), pagesize }
    }

    /// Records the image that `info` reports in front of those seen before;
    /// an image that makes no module is skipped.
    pub fn add_module(&mut self, info: &ModuleInfo) -> (added: bool)
        requires
            old(self).wf(),
        ensures
            final(self).wf(),
            final(self).pagesize == old(self).pagesize,
            added == accepts(info, old(self).pagesize as int),
            added ==> {
                &&& final(self).modules@.len() == old(self).modules@.len() + 1
                &&& final(self).modules@.drop_first() == old(self).modules@
                &&& final(self).modules@[0].address == info.address
                &&& final(self).modules@[0].size == span(info.segments@, old(self).pagesize as int)->0
                &&& final(self).modules@[0].name@ == info.name->0@
            },
            !added ==> final(self).modules@ == old(self).modules@,
    {
        match Module::new(info, self.pagesize) {
            Some(m) => {
                self.modules.insert(0, m);
                assert(self.modules@.drop_first() =~= old(self).modules@);
                assert forall|i: int| 0 <= i < self.modules@.len() implies (#[trigger] self.modules@[i]).size
                    % self.pagesize == 0 && self.modules@[i].wf() by {
                    if i > 0 {
                        assert(self.modules@[i] == old(self).modules@[i - 1]);
                    }
                }
                true
            },
            None => false,
        }
    }

    /// The position of the first recorded module whose name ends with
    /// `suffix`.
    pub fn find_module(&self, suffix: &str) -> (r: Option<usize>)
        ensures
            match r {
                Some(i) => i < self.modules@.len() && ends_with(
                    encode_utf8(self.modules@[i as int].name@),
                    suffix.spec_bytes(),
                ) && forall|j: int|
                    0 <= j < i ==> !ends_with(
                        encode_utf8((#[trigger] self.modules@[j]).name@),
                        suffix.spec_bytes(),
                    ),
                None => forall|j: int|
                    0 <= j < self.modules@.len() ==> !ends_with(
                        encode_utf8((#[trigger] self.modules@[j]).name@),
                        suffix.spec_bytes(),
                    ),
            },
    {
        let t = suffix.as_bytes();
        let mut i: usize = 0;
        while i < self.modules.len()
            invariant
                i <= self.modules@.len(),
                t@ == suffix.spec_bytes(),
                forall|j: int|
                    0 <= j < i ==> !ends_with(
                        encode_utf8((#[trigger] self.modules@[j]).name@),
                        suffix.spec_bytes(),
                    ),
            decreases self.modules@.len() - i,
        {
            let s = self.modules[i].name.as_str().as_bytes();
            if bytes_end_with(s, t) {
                return Some(i);
            }
            i = i + 1;
        }
        None
    }
}

fn bytes_end_with(s: &[u8], t: &[u8]) -> (r: bool)
    ensures
        r == ends_with(s@, t@),
{
    if t.len() > s.len() {
        return false;
    }
    let n: usize = s.len();
    let d: usize = n - t.len();
    let mut k: usize = 0;
    while k < t.len()
        invariant
            n == s@.len(),
            d + t@.len() == s@.len(),
            k <= t@.len(),
            forall|j: int| 0 <= j < k ==> s@[d + j] == t@[j],
        decreases t@.len() - k,
    {
        if s[d + k] != t[k] {
            assert(s@.subrange(d as int, s@.len() as int)[k as int] != t@[k as int]);
            return false;
        }
        k = k + 1;
    }
    assert(s@.subrange(d as int, s@.len() as int) =~= t@);
    true
}

} // verus!
