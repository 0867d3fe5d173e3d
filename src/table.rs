use vstd::prelude::*;

use crate::counters::{Counters, TABLE_LENGTH};
use crate::heap::{rank_le, sort_by_rank, HeapPair};
use crate::lossy_pht::{lemma_slot_in_range, slot_of, LossyPHS, TableEntry};
use crate::sample::{
    lemma_sample_len_prefix, lemma_sample_of_same_lines, make_sample, sample_len, sample_of,
    sample_views, same_lines, FSST_SAMPLELINE, FSST_SAMPLETARGET,
};
use crate::symbol::{
    agree_on, byte_of, lemma_first_bytes, lemma_heads_in_range, lemma_pack, load_window, push_symbol,
    window_of, Symbol,
};

verus! {

/// Most learned symbols a table holds, so that code byte 255 stays free for
/// the escape.
pub const MAX_SYMBOLS: usize = 254;

/// Most bytes that a symbol holds.
const SYMBOL_LENGTH: usize = 8;

/// Bound on the bytes counted between two resets of the counters, which
/// keeps counts and gains far from overflow.
const COUNT_LIMIT: usize = 0x10_0000;

/// The escape byte: the next byte of the stream is a literal.
pub const ESCAPE: u8 = 255;

/// What `decode` reports on a stream that no table output can be.
#[derive(Clone, Copy, PartialEq, Eq, Structural, Debug)]
pub enum DecodeError {
    /// The stream ends right after an escape byte.
    TruncatedEscape,
    /// A code byte names no learned symbol of the table.
    UnknownCode,
}

/// The dictionary: 256 one-byte base symbols, up to 254 learned symbols of
/// one to eight bytes, and three lookup tiers over the learned ones (by first
/// byte, by first two bytes, and a lossy hash on the first three bytes for
/// longer symbols), plus the counters that training fills.
pub struct SymbolTable {
    n_symbols: usize,
    symbols_1_byte: Vec<TableEntry>,
    symbols_2_byte: Vec<TableEntry>,
    phs: LossyPHS,
    symbols: Vec<Symbol>,
    counters: Counters,
}

impl SymbolTable {
    /// Number of learned symbols.
    pub closed spec fn n(&self) -> nat {
        self.n_symbols as nat
    }

    /// The bytes of code `c`: codes below 256 are the base bytes, code
    /// `256 + i` is the `i`-th learned symbol.
    pub closed spec fn symbol_at(&self, c: int) -> Seq<u8> {
        self.symbols@[c]@
    }

    /// Code `c` can be found through the tier that its length selects.
    spec fn registered(&self, c: int) -> bool {
        let s = self.symbols@[c];
        if s.len == 8 {
            self.symbols_1_byte@[(s.value & 0xff) as int].used
        } else if s.len == 16 {
            self.symbols_2_byte@[(s.value & 0xffff) as int].used
        } else {
            self.phs.table@[slot_of(s.value & 0xff_ffff)] == TableEntry {
                val: c as usize,
                used: true,
            }
        }
    }

    spec fn tiers_wf(&self) -> bool {
        &&& forall|b: int|
            0 <= b < 256 && #[trigger] self.symbols_1_byte@[b].used ==> {
                let v = self.symbols_1_byte@[b].val as int;
                &&& 256 <= v < 256 + self.n_symbols
                &&& self.symbols@[v].len == 8
                &&& (self.symbols@[v].value & 0xff) == b
            }
        &&& forall|k: int|
            0 <= k < 65536 && #[trigger] self.symbols_2_byte@[k].used ==> {
                let v = self.symbols_2_byte@[k].val as int;
                &&& 256 <= v < 256 + self.n_symbols
                &&& self.symbols@[v].len == 16
                &&& (self.symbols@[v].value & 0xffff) == k
            }
        &&& forall|k: int|
            0 <= k < 2048 && #[trigger] self.phs.table@[k].used ==> {
                let v = self.phs.table@[k].val as int;
                &&& 256 <= v < 256 + self.n_symbols
                &&& self.symbols@[v].len >= 24
                &&& slot_of(self.symbols@[v].value & 0xff_ffff) == k
            }
    }

    /// The invariant but for the registration of the learned symbols.
    spec fn shape_wf(&self) -> bool {
        &&& self.symbols@.len() == 512
        &&& self.symbols_1_byte@.len() == 256
        &&& self.symbols_2_byte@.len() == 65536
        &&& self.phs.table@.len() == 2048
        &&& self.counters.wf()
        &&& self.n_symbols <= MAX_SYMBOLS
        &&& forall|c: int|
            0 <= c < 256 ==> (#[trigger] self.symbols@[c]).wf() && self.symbols@[c]@ == seq![
                c as u8,
            ] && self.symbols@[c] == (Symbol { value: c as u64, len: 8 })
        &&& forall|c: int|
            256 <= c < 256 + self.n_symbols ==> {
                &&& (#[trigger] self.symbols@[c]).wf()
                &&& self.symbols@[c].len >= 8
            }
        &&& self.tiers_wf()
        &&& self.tiers_latest()
    }

    /// A taken one- or two-byte slot holds the latest learned code that
    /// belongs there.
    spec fn tiers_latest(&self) -> bool {
        &&& forall|b: int, d: int|
            0 <= b < 256 && #[trigger] self.symbols_1_byte@[b].used && self.symbols_1_byte@[b].val
                < d < 256 + self.n_symbols ==> !((#[trigger] self.symbols@[d]).len == 8 && (
            self.symbols@[d].value & 0xff) == b)
        &&& forall|k: int, d: int|
            0 <= k < 65536 && #[trigger] self.symbols_2_byte@[k].used && self.symbols_2_byte@[k].val
                < d < 256 + self.n_symbols ==> !((#[trigger] self.symbols@[d]).len == 16 && (
            self.symbols@[d].value & 0xffff) == k)
    }

    /// The table's invariant.
    pub closed spec fn wf(&self) -> bool {
        &&& self.shape_wf()
        &&& forall|c: int| 256 <= c < 256 + self.n_symbols ==> #[trigger] self.registered(c)
    }

    /// No learned symbol and no registration.
    spec fn is_empty_dictionary(&self) -> bool {
        &&& self.n_symbols == 0
        &&& forall|b: int| 0 <= b < 256 ==> !(#[trigger] self.symbols_1_byte@[b]).used
        &&& forall|k: int| 0 <= k < 65536 ==> !(#[trigger] self.symbols_2_byte@[k]).used
        &&& forall|k: int| 0 <= k < 2048 ==> !(#[trigger] self.phs.table@[k]).used
    }

    /// The code that the lookup picks for the window `w`: a learned symbol of
    /// three or more bytes found by hash and confirmed by comparison, else a
    /// learned two-byte symbol, else a learned one-byte symbol, else the base
    /// code of the first byte.
    pub closed spec fn lookup(&self, w: Symbol) -> int {
        let e = self.phs.table@[slot_of(w.value & 0xff_ffff)];
        let s = self.symbols@[e.val as int];
        if e.used && s.len <= w.len && agree_on(w.value, s.value, (s.len / 8) as int) {
            e.val as int
        } else if w.len >= 16 && self.symbols_2_byte@[(w.value & 0xffff) as int].used {
            self.symbols_2_byte@[(w.value & 0xffff) as int].val as int
        } else if self.symbols_1_byte@[(w.value & 0xff) as int].used {
            self.symbols_1_byte@[(w.value & 0xff) as int].val as int
        } else {
            (w.value & 0xff) as int
        }
    }

    fn new() -> (r: SymbolTable)
        ensures
            r.wf(),
            r.is_empty_dictionary(),
            r.counters.all_zero(),
    {
        let mut symbols: Vec<Symbol> = Vec::with_capacity(2 * TABLE_LENGTH);
        let mut code: usize = 0;
        while code < 2 * TABLE_LENGTH
            invariant
                code <= 2 * TABLE_LENGTH,
                symbols@.len() == code,
                forall|c: int|
                    0 <= c < code && c < 256 ==> (#[trigger] symbols@[c]).wf() && symbols@[c]@
                        == seq![c as u8] && symbols@[c] == (Symbol { value: c as u64, len: 8 }),
            decreases 2 * TABLE_LENGTH - code,
        {
            let mut s = Symbol::new();
            if code < TABLE_LENGTH {
                s.add_char(code as u8);
                assert(s@ =~= seq![code as u8]);
                proof {
                    let c = code as u8 as u64;
                    assert((0u64 | (c << 0u64)) == c) by (bit_vector);
                }
            }
            symbols.push(s);
            code = code + 1;
        }
        let r = SymbolTable {
            n_symbols: 0,
            symbols,
            phs: LossyPHS::new(),
            symbols_1_byte: vec![TableEntry { val: 0, used: false }; 256],
            symbols_2_byte: vec![TableEntry { val: 0, used: false }; 65536],
            counters: Counters::new(),
        };
        r
    }

    /// Every code that the lookup returns is a symbol of the table that the
    /// window begins with.
    proof fn lemma_lookup_prefix(&self, w: Symbol)
        requires
            self.wf(),
            w.wf(),
            w.len >= 8,
        ensures
            0 <= self.lookup(w) < 256 + self.n(),
            self.symbols@[self.lookup(w)].wf(),
            self.symbols@[self.lookup(w)].len >= 8,
            self.symbol_at(self.lookup(w)).is_prefix_of(w@),
            self.lookup(w) < 256 ==> self.symbol_at(self.lookup(w)) == seq![
                self.lookup(w) as u8,
            ],
    {
        let c = self.lookup(w);
        let e = self.phs.table@[slot_of(w.value & 0xff_ffff)];
        let s = self.symbols@[e.val as int];
        let e2 = self.symbols_2_byte@[(w.value & 0xffff) as int];
        let e1 = self.symbols_1_byte@[(w.value & 0xff) as int];
        lemma_heads_in_range(w.value);
        lemma_slot_in_range(w.value & 0xff_ffff);
        lemma_first_bytes(w.value, self.symbols@[c].value);
        let t = self.symbols@[c];
        if e.used && s.len <= w.len && agree_on(w.value, s.value, (s.len / 8) as int) {
            assert(t@ =~= w@.subrange(0, t@.len() as int));
        } else if w.len >= 16 && e2.used {
            assert(agree_on(w.value, t.value, 2));
            assert(t@ =~= w@.subrange(0, t@.len() as int));
        } else if e1.used {
            assert(agree_on(w.value, t.value, 1));
            assert(t@ =~= w@.subrange(0, t@.len() as int));
        } else {
            assert(self.symbols@[c]@ == seq![c as u8]);
            assert(w@[0] == byte_of(w.value, 0));
            assert(t@ =~= w@.subrange(0, t@.len() as int));
        }
    }

    /// The code of the longest symbol that the window `text` begins with, as
    /// far as the three tiers find it.
    fn find_longest_symbol(&self, text: &Symbol) -> (r: usize)
        requires
            self.wf(),
            text.wf(),
            text.len >= 8,
        ensures
            r == self.lookup(*text),
            r < 256 + self.n(),
            self.symbols@[r as int].wf(),
            8 <= self.symbols@[r as int].len,
            self.symbol_at(r as int).is_prefix_of(text@),
    {
        proof {
            self.lemma_lookup_prefix(*text);
            lemma_slot_in_range(text.value & 0xff_ffff);
        }
        let e = self.phs.get(text.first3byte());
        if e.used {
            let s = self.symbols[e.val];
            if s.len <= text.len && text.starts_with(&s) {
                return e.val;
            }
        }
        if text.len >= 16 {
            let e2 = self.symbols_2_byte[text.first2byte() as usize];
            if e2.used {
                return e2.val;
            }
        }
        let e1 = self.symbols_1_byte[text.first1byte() as usize];
        if e1.used {
            return e1.val;
        }
        text.first1byte() as usize
    }

    /// Whether `insert` keeps `s`: one- and two-byte symbols always are, a
    /// longer one only when its hash slot is free.
    pub closed spec fn accepts(&self, s: Symbol) -> bool {
        s.len == 8 || s.len == 16 || !self.phs.table@[slot_of(s.value & 0xff_ffff)].used
    }

    /// Adds `s` as the next learned symbol, registered in the tier that its
    /// length selects; a symbol of three or more bytes whose hash slot is
    /// taken is dropped.
    fn insert(&mut self, s: Symbol)
        requires
            old(self).wf(),
            s.wf(),
            8 <= s.len,
            old(self).n() < MAX_SYMBOLS,
        ensures
            final(self).wf(),
            final(self).n() == old(self).n() + (if old(self).accepts(s) {
                1int
            } else {
                0int
            }),
            forall|c: int|
                0 <= c < 256 + old(self).n() ==> #[trigger] final(self).symbols@[c] == old(
                    self,
                ).symbols@[c],
            old(self).accepts(s) ==> final(self).symbols@[256 + old(self).n() as int] == s,
            final(self).counters == old(self).counters,
            old(self).accepts(s) == (s.len == 8 || s.len == 16 || !old(self).taken().contains(
                slot_of(s.value & 0xff_ffff),
            )),
            final(self).learned() == (if old(self).accepts(s) {
                old(self).learned().push(s)
            } else {
                old(self).learned()
            }),
            final(self).taken() == (if s.len != 8 && s.len != 16 && old(self).accepts(s) {
                old(self).taken().insert(slot_of(s.value & 0xff_ffff))
            } else {
                old(self).taken()
            }),
            s.len == 8 ==> final(self).symbols_1_byte@ == old(self).symbols_1_byte@.update(
                (s.value & 0xff) as int,
                TableEntry { val: (256 + old(self).n_symbols) as usize, used: true },
            ),
            s.len == 16 ==> final(self).symbols_2_byte@ == old(self).symbols_2_byte@.update(
                (s.value & 0xffff) as int,
                TableEntry { val: (256 + old(self).n_symbols) as usize, used: true },
            ),
            s.len >= 24 ==> final(self).phs.table@ == (if old(self).accepts(s) {
                old(self).phs.table@.update(
                    slot_of(s.value & 0xff_ffff),
                    TableEntry { val: (256 + old(self).n_symbols) as usize, used: true },
                )
            } else {
                old(self).phs.table@
            }),
            s.len < 24 ==> final(self).phs.table@ == old(self).phs.table@,
            s.len != 8 ==> final(self).symbols_1_byte == old(self).symbols_1_byte,
            s.len != 16 ==> final(self).symbols_2_byte == old(self).symbols_2_byte,
            !old(self).accepts(s) ==> final(self).symbols == old(self).symbols,
            !old(self).accepts(s) ==> final(self).n_symbols == old(self).n_symbols,
    {
        let code = TABLE_LENGTH + self.n_symbols;
        proof {
            lemma_heads_in_range(s.value);
            lemma_slot_in_range(s.value & 0xff_ffff);
        }
        if s.len == 16 {
            let idx = s.first2byte() as usize;
            self.symbols_2_byte.set(idx, TableEntry { val: code, used: true });
        } else if s.len == 8 {
            let idx = s.first1byte() as usize;
            self.symbols_1_byte.set(idx, TableEntry { val: code, used: true });
        } else if !self.phs.add(s.first3byte(), code) {
            proof {
                assert(self.phs.table@ == old(self).phs.table@);
                assert forall|c: int| 256 <= c < 256 + self.n_symbols implies #[trigger] self.registered(
                    c,
                ) by {
                    assert(old(self).registered(c));
                }
                assert forall|k: int|
                    0 <= k < 2048 && #[trigger] self.phs.table@[k].used implies old(
                    self,
                ).phs.table@[k].used by {}
                assert(self.tiers_wf());
                assert(self.taken() =~= old(self).taken());
            }
            return;
        }
        self.symbols.set(code, s);
        self.n_symbols = self.n_symbols + 1;
        proof {
            assert(self.learned() =~= old(self).learned().push(s));
            if s.len != 8 && s.len != 16 {
                assert(self.taken() =~= old(self).taken().insert(slot_of(s.value & 0xff_ffff)));
            } else {
                assert(self.taken() =~= old(self).taken());
            }
            assert forall|c: int| 256 <= c < 256 + self.n_symbols implies #[trigger] self.registered(
                c,
            ) by {
                let t = self.symbols@[c];
                lemma_heads_in_range(t.value);
                lemma_slot_in_range(t.value & 0xff_ffff);
                if c < code {
                    assert(old(self).registered(c));
                    assert(t == old(self).symbols@[c]);
                    if t.len == 8 {
                        assert(old(self).symbols_1_byte@[(t.value & 0xff) as int].used);
                    } else if t.len == 16 {
                        assert(old(self).symbols_2_byte@[(t.value & 0xffff) as int].used);
                    } else {
                        assert(old(self).phs.table@[slot_of(t.value & 0xff_ffff)].used);
                    }
                } else {
                    assert(c == code);
                    assert(t == s);
                }
            }
        }
    }

    /// Frees every registration and resets the counters; the base symbols
    /// stay.
    fn clear(&mut self)
        requires
            old(self).wf(),
        ensures
            final(self).wf(),
            final(self).is_empty_dictionary(),
            final(self).counters.all_zero(),
            final(self).symbols == old(self).symbols,
    {
        let end = TABLE_LENGTH + self.n_symbols;
        let mut code: usize = 0;
        while code < end
            invariant
                self.shape_wf(),
                code <= end,
                end == 256 + self.n_symbols,
                self.symbols == old(self).symbols,
                forall|b: int|
                    0 <= b < 256 && #[trigger] self.symbols_1_byte@[b].used
                        ==> self.symbols_1_byte@[b].val >= code,
                forall|k: int|
                    0 <= k < 65536 && #[trigger] self.symbols_2_byte@[k].used
                        ==> self.symbols_2_byte@[k].val >= code,
                forall|k: int|
                    0 <= k < 2048 && #[trigger] self.phs.table@[k].used ==> self.phs.table@[k].val
                        >= code,
            decreases end - code,
        {
            let symbol = self.symbols[code];
            proof {
                lemma_heads_in_range(symbol.value);
                lemma_slot_in_range(symbol.value & 0xff_ffff);
            }
            if symbol.len == 8 {
                self.symbols_1_byte.set(
                    symbol.first1byte() as usize,
                    TableEntry { val: 0, used: false },
                );
            } else if symbol.len == 16 {
                self.symbols_2_byte.set(
                    symbol.first2byte() as usize,
                    TableEntry { val: 0, used: false },
                );
            } else {
                self.phs.remove(symbol.first3byte());
            }
            proof {
                assert(self.symbols@[code as int] == symbol);
            }
            code = code + 1;
        }
        proof {
            assert forall|b: int| 0 <= b < 256 implies !(#[trigger] self.symbols_1_byte@[b]).used by {}
            assert forall|k: int| 0 <= k < 65536 implies !(
            #[trigger] self.symbols_2_byte@[k]).used by {}
            assert forall|k: int| 0 <= k < 2048 implies !(#[trigger] self.phs.table@[k]).used by {}
        }
        self.counters.clear();
        self.n_symbols = 0;
    }
}

impl SymbolTable {
    /// The invariant holds of a table that differs from a table where it
    /// holds in its counters alone.
    proof fn lemma_wf_counters(a: &Self, b: &Self)
        requires
            a.wf(),
            b.counters.wf(),
            b.n_symbols == a.n_symbols,
            b.symbols == a.symbols,
            b.symbols_1_byte == a.symbols_1_byte,
            b.symbols_2_byte == a.symbols_2_byte,
            b.phs == a.phs,
        ensures
            b.wf(),
    {
        assert forall|c: int| 256 <= c < 256 + b.n_symbols implies #[trigger] b.registered(c) by {
            assert(a.registered(c));
        }
        assert(b.tiers_wf()) by {
            assert forall|k: int|
                0 <= k < 65536 && #[trigger] b.symbols_2_byte@[k].used implies a.symbols_2_byte@[k].used by {}
        }
    }

    /// Number of learned symbols.
    pub fn n_symbols(&self) -> (r: usize)
        ensures
            r == self.n(),
    {
        self.n_symbols
    }

    /// The symbol of code `code`.
    pub fn symbol(&self, code: usize) -> (r: Symbol)
        requires
            self.wf(),
            code < 256 + self.n(),
        ensures
            r@ == self.symbol_at(code as int),
            r.wf(),
    {
        self.symbols[code]
    }

    /// How often the greedy parse of `s` counts code `i`: once for each step
    /// that picks it, and once more for each step that picks a learned
    /// symbol whose first byte is `i`.
    pub closed spec fn unigram_count(&self, s: Seq<u8>, i: int) -> nat
        decreases s.len(),
    {
        if s.len() == 0 {
            0
        } else {
            let c = self.lookup(window_of(s));
            let k = self.symbols@[c].len / 8;
            let here: nat = (if c == i {
                1nat
            } else {
                0nat
            }) + (if c >= 256 && s[0] as int == i {
                1nat
            } else {
                0nat
            });
            if 1 <= k <= s.len() {
                here + self.unigram_count(s.skip(k as int), i)
            } else {
                here
            }
        }
    }

    /// How often the greedy parse of `s`, after code `prev`, counts code `j`
    /// right after code `i`: for each step, the pair of the previous code and
    /// the code picked, and for a learned code also the pair of the previous
    /// code and the first byte.
    pub closed spec fn bigram_count(&self, s: Seq<u8>, prev: int, i: int, j: int) -> nat
        decreases s.len(),
    {
        if s.len() == 0 {
            0
        } else {
            let c = self.lookup(window_of(s));
            let k = self.symbols@[c].len / 8;
            let here: nat = (if prev == i && c == j {
                1nat
            } else {
                0nat
            }) + (if c >= 256 && prev == i && s[0] as int == j {
                1nat
            } else {
                0nat
            });
            if 1 <= k <= s.len() {
                here + self.bigram_count(s.skip(k as int), c, i, j)
            } else {
                here
            }
        }
    }

    /// Greedy parse of `text` over the current table, counting each code
    /// used and each pair of consecutive codes; where a learned code is used,
    /// its first byte is counted as well. The parse starts after code 0.
    fn compress_count(&mut self, text: &[u8], Ghost(b): Ghost<nat>)
        requires
            old(self).wf(),
            old(self).counters.bounded_by(b),
            b + text@.len() <= COUNT_LIMIT,
        ensures
            final(self).wf(),
            final(self).counters.bounded_by(b + text@.len()),
            forall|i: int|
                0 <= i < 512 ==> #[trigger] final(self).counters.count1(i) == old(
                    self,
                ).counters.count1(i) + old(self).unigram_count(text@, i),
            forall|i: int, j: int|
                0 <= i < 512 && 0 <= j < 512 ==> #[trigger] final(self).counters.count2(i, j)
                    == old(self).counters.count2(i, j) + old(self).bigram_count(text@, 0, i, j),
            final(self).n_symbols == old(self).n_symbols,
            final(self).symbols == old(self).symbols,
            final(self).symbols_1_byte == old(self).symbols_1_byte,
            final(self).symbols_2_byte == old(self).symbols_2_byte,
            final(self).phs == old(self).phs,
    {
        let mut p: usize = 0;
        let mut code: usize = 0;
        proof {
            assert(text@.skip(0) =~= text@);
        }
        while p < text.len()
            invariant
                self.wf(),
                old(self).wf(),
                self.n_symbols == old(self).n_symbols,
                self.symbols == old(self).symbols,
                self.symbols_1_byte == old(self).symbols_1_byte,
                self.symbols_2_byte == old(self).symbols_2_byte,
                self.phs == old(self).phs,
                p <= text@.len(),
                code < 512,
                self.counters.bounded_by((b + p) as nat),
                b + text@.len() <= COUNT_LIMIT,
                forall|i: int|
                    0 <= i < 512 ==> #[trigger] self.counters.count1(i) + old(self).unigram_count(
                        text@.skip(p as int),
                        i,
                    ) == old(self).counters.count1(i) + old(self).unigram_count(text@, i),
                forall|i: int, j: int|
                    0 <= i < 512 && 0 <= j < 512 ==> #[trigger] self.counters.count2(i, j) + old(
                        self,
                    ).bigram_count(text@.skip(p as int), code as int, i, j) == old(
                        self,
                    ).counters.count2(i, j) + old(self).bigram_count(text@, 0, i, j),
            decreases text@.len() - p,
        {
            let prev = code;
            let ghost before = *self;
            let ghost rest = text@.skip(p as int);
            let symbol = load_window(text, p);
            code = self.find_longest_symbol(&symbol);
            proof {
                old(self).lemma_encode_step(rest);
                lemma_heads_in_range(symbol.value);
            }
            self.counters.incr_c1(code);
            self.counters.incr_c2(prev, code);
            if code >= TABLE_LENGTH {
                let next_char = symbol.first1byte() as usize;
                self.counters.incr_c1(next_char);
                self.counters.incr_c2(prev, next_char);
            }
            let adv = self.symbols[code].len / 8;
            proof {
                SymbolTable::lemma_wf_counters(&before, self);
                assert(symbol@.len() <= text@.len() - p);
                assert(self.symbol_at(code as int).len() == adv);
                assert(rest.skip(adv as int) =~= text@.skip(p + adv));
                assert(code as int == old(self).lookup(window_of(rest)));
                assert forall|i: int| 0 <= i < 512 implies #[trigger] self.counters.count1(i)
                    == before.counters.count1(i) + (if code as int == i {
                    1int
                } else {
                    0int
                }) + (if code >= 256 && rest[0] as int == i {
                    1int
                } else {
                    0int
                }) by {}
                assert forall|i: int, j: int| 0 <= i < 512 && 0 <= j < 512 implies #[trigger] self.counters.count2(
                    i,
                    j,
                ) == before.counters.count2(i, j) + (if prev as int == i && code as int == j {
                    1int
                } else {
                    0int
                }) + (if code >= 256 && prev as int == i && rest[0] as int == j {
                    1int
                } else {
                    0int
                }) by {}
            }
            p = p + adv;
        }
        proof {
            assert(text@.skip(p as int) =~= Seq::<u8>::empty());
        }
    }

    /// The learned symbols, in code order.
    pub closed spec fn learned(&self) -> Seq<Symbol> {
        self.symbols@.subrange(256, 256 + self.n_symbols)
    }

    /// The slots of the hashed tier that are taken.
    spec fn taken(&self) -> Set<int> {
        Set::new(|k: int| 0 <= k < 2048 && self.phs.table@[k].used)
    }

    /// The gain of code `c` on its own: length times count, times 8 for a
    /// base byte.
    pub closed spec fn unigram_gain(&self, c: int) -> int {
        (self.symbols@[c].len / 8) * self.counters.count1(c) * (if c < 256 {
            8int
        } else {
            1int
        })
    }

    /// The candidates that extend code `c1` by each code below `upto` that
    /// fits, each with gain length times pair count.
    pub closed spec fn pair_candidates(&self, c1: int, upto: int) -> Seq<HeapPair>
        decreases upto,
    {
        if upto <= 0 {
            Seq::empty()
        } else {
            let prev = self.pair_candidates(c1, upto - 1);
            let s1 = self.symbols@[c1];
            let s2 = self.symbols@[upto - 1];
            if s1.len / 8 + s2.len / 8 <= 8 {
                prev.push(
                    HeapPair(
                        ((s1.len / 8 + s2.len / 8) * self.counters.count2(c1, upto - 1)) as usize,
                        s1.concat(s2),
                    ),
                )
            } else {
                prev
            }
        }
    }

    /// The candidates from the codes below `upto`, in the order they are
    /// generated: each code counted at least `5 * sample_frac / 128` times,
    /// followed, before the last generation and when it is shorter than
    /// eight bytes, by its extensions.
    pub closed spec fn candidates_upto(&self, sample_frac: int, upto: int) -> Seq<HeapPair>
        decreases upto,
    {
        if upto <= 0 {
            Seq::empty()
        } else {
            let prev = self.candidates_upto(sample_frac, upto - 1);
            let c = upto - 1;
            let s1 = self.symbols@[c];
            if self.counters.count1(c) >= 5 * sample_frac / 128 {
                let with_base = prev.push(HeapPair(self.unigram_gain(c) as usize, s1));
                if sample_frac < 128 && s1.len / 8 < 8 {
                    with_base + self.pair_candidates(c, 256 + self.n_symbols)
                } else {
                    with_base
                }
            } else {
                prev
            }
        }
    }

    /// All candidates of a rebuild with support parameter `sample_frac`.
    pub closed spec fn candidates(&self, sample_frac: int) -> Seq<HeapPair> {
        self.candidates_upto(sample_frac, 256 + self.n_symbols)
    }

    /// Rebuilds the dictionary from the counters: every code counted at
    /// least `5 * sample_frac / 128` times becomes a candidate with gain
    /// `length * count` (times 8 for base bytes), and, before the last
    /// generation, so does its concatenation with every code that fits, with
    /// gain `length * pair count`. The table is then cleared and refilled
    /// with candidates of highest rank first, until it is full or they run
    /// out.
    fn make_table(&mut self, sample_frac: usize)
        requires
            old(self).wf(),
            old(self).counters.bounded_by(COUNT_LIMIT as nat),
            sample_frac <= 128,
        ensures
            final(self).wf(),
            final(self).counters.all_zero(),
            exists|sorted: Seq<HeapPair>|
                {
                    &&& #[trigger] sorted.to_multiset() == old(self).candidates(
                        sample_frac as int,
                    ).to_multiset()
                    &&& sorted_by_rank(sorted)
                    &&& final(self).learned() == refill(Set::empty(), sorted, Seq::empty())
                },
    {
        let mut cands: Vec<HeapPair> = Vec::new();
        let end = TABLE_LENGTH + self.n_symbols;
        let mut code1: usize = 0;
        while code1 < end
            invariant
                self.wf(),
                end == 256 + self.n_symbols,
                code1 <= end,
                sample_frac <= 128,
                self.counters.bounded_by(COUNT_LIMIT as nat),
                forall|k: int|
                    0 <= k < cands@.len() ==> (#[trigger] cands@[k]).1.wf() && cands@[k].1.len
                        >= 8,
                cands@ == self.candidates_upto(sample_frac as int, code1 as int),
            decreases end - code1,
        {
            let ghost before = cands@;
            let count = self.counters.get_from_c1(code1);
            if count >= 5 * sample_frac / 128 {
                let s1 = self.symbols[code1];
                proof {
                    assert(self.symbols@[code1 as int].wf());
                    if code1 < 256 {
                        assert(s1@.len() == 1);
                    }
                }
                let length1 = s1.len / 8;
                assert(length1 * count <= 8 * COUNT_LIMIT) by (nonlinear_arith)
                    requires
                        length1 <= 8,
                        count <= COUNT_LIMIT,
                ;
                let mut gain = length1 * count;
                if code1 < TABLE_LENGTH {
                    gain = gain * 8;
                }
                assert(gain == self.unigram_gain(code1 as int));
                cands.push(HeapPair(gain, s1));
                let ghost with_base = cands@;
                if sample_frac < 128 && length1 < SYMBOL_LENGTH {
                    let mut code2: usize = 0;
                    proof {
                        assert(cands@ =~= with_base + self.pair_candidates(code1 as int, 0));
                    }
                    while code2 < end
                        invariant
                            self.wf(),
                            end == 256 + self.n_symbols,
                            code1 < end,
                            code2 <= end,
                            s1 == self.symbols@[code1 as int],
                            s1.wf(),
                            8 <= s1.len,
                            length1 == s1.len / 8,
                            length1 < 8,
                            self.counters.bounded_by(COUNT_LIMIT as nat),
                            forall|k: int|
                                0 <= k < cands@.len() ==> (#[trigger] cands@[k]).1.wf()
                                    && cands@[k].1.len >= 8,
                            cands@ == with_base + self.pair_candidates(code1 as int, code2 as int),
                        decreases end - code2,
                    {
                        let ghost prev = cands@;
                        let s2 = self.symbols[code2];
                        proof {
                            assert(self.symbols@[code2 as int].wf());
                        }
                        if length1 + s2.len / 8 <= SYMBOL_LENGTH {
                            let new = s1.extend(&s2);
                            let pair_count = self.counters.get_from_c2(code1, code2);
                            let new_len = new.len / 8;
                            assert(new_len * pair_count <= 8 * COUNT_LIMIT) by (nonlinear_arith)
                                requires
                                    new_len <= 8,
                                    pair_count <= COUNT_LIMIT,
                            ;
                            assert(new_len == s1.len / 8 + s2.len / 8);
                            cands.push(HeapPair(new_len * pair_count, new));
                        }
                        proof {
                            assert(cands@ =~= with_base + self.pair_candidates(
                                code1 as int,
                                code2 + 1,
                            ));
                        }
                        code2 = code2 + 1;
                    }
                }
            }
            code1 = code1 + 1;
        }
        let ghost all = cands@;
        proof {
            assert(all == old(self).candidates(sample_frac as int));
        }
        self.clear();
        sort_by_rank(&mut cands);
        let ghost sorted = cands@;
        proof {
            assert forall|k: int| 0 <= k < cands@.len() implies (#[trigger] cands@[k]).1.wf()
                && cands@[k].1.len >= 8 by {
                let x = cands@[k];
                vstd::seq_lib::to_multiset_contains(cands@, x);
                vstd::seq_lib::to_multiset_contains(all, x);
                let j = choose|j: int| 0 <= j < all.len() && all[j] == x;
                assert(all[j].1.wf());
            }
            assert(self.taken() =~= Set::<int>::empty());
            assert(self.learned() =~= Seq::<Symbol>::empty());
            assert(sorted.take(sorted.len() as int) =~= sorted);
        }
        let mut i: usize = cands.len();
        while i > 0 && self.n_symbols < MAX_SYMBOLS
            invariant
                self.wf(),
                i <= cands@.len(),
                cands@ == sorted,
                self.counters.all_zero(),
                forall|k: int|
                    0 <= k < cands@.len() ==> (#[trigger] cands@[k]).1.wf() && cands@[k].1.len
                        >= 8,
                self.learned().len() == self.n_symbols,
                refill(self.taken(), sorted.take(i as int), self.learned()) == refill(
                    Set::empty(),
                    sorted,
                    Seq::empty(),
                ),
            decreases i,
        {
            let ghost t0 = self.taken();
            let ghost l0 = self.learned();
            i = i - 1;
            let sym = cands[i].1;
            proof {
                lemma_slot_in_range(sym.value & 0xff_ffff);
                assert(sorted.take(i + 1).drop_last() =~= sorted.take(i as int));
                assert(sorted.take(i + 1).last() == sorted[i as int]);
            }
            self.insert(sym);
        }
        proof {
            if i == 0 {
                assert(sorted.take(0) =~= Seq::<HeapPair>::empty());
            }
            assert(sorted.to_multiset() == old(self).candidates(sample_frac as int).to_multiset());
        }
    }
}

/// The learned symbols that refilling an empty table from `cands` gives:
/// candidates are taken from the back (highest rank first); one of three or
/// more bytes whose hash slot is in `taken` is dropped; the fill stops at
/// 254 symbols.
pub open spec fn refill(taken: Set<int>, cands: Seq<HeapPair>, acc: Seq<Symbol>) -> Seq<Symbol>
    decreases cands.len(),
{
    if cands.len() == 0 || acc.len() >= MAX_SYMBOLS {
        acc
    } else {
        let s = cands.last().1;
        let slot = slot_of(s.value & 0xff_ffff);
        if s.len == 8 || s.len == 16 {
            refill(taken, cands.drop_last(), acc.push(s))
        } else if taken.contains(slot) {
            refill(taken, cands.drop_last(), acc)
        } else {
            refill(taken.insert(slot), cands.drop_last(), acc.push(s))
        }
    }
}

/// Candidates in non-decreasing rank.
pub open spec fn sorted_by_rank(s: Seq<HeapPair>) -> bool {
    forall|i: int, j: int| 0 <= i < j < s.len() ==> rank_le(s[i], s[j])
}

impl SymbolTable {
    /// Unigram counts of the greedy parse, summed over the lines of a
    /// sample.
    pub closed spec fn sample_unigrams(&self, lines: Seq<Seq<u8>>, i: int) -> nat
        decreases lines.len(),
    {
        if lines.len() == 0 {
            0
        } else {
            self.sample_unigrams(lines.drop_last(), i) + self.unigram_count(lines.last(), i)
        }
    }

    /// Bigram counts of the greedy parse, summed over the lines of a sample;
    /// each line starts after code 0.
    pub closed spec fn sample_bigrams(&self, lines: Seq<Seq<u8>>, i: int, j: int) -> nat
        decreases lines.len(),
    {
        if lines.len() == 0 {
            0
        } else {
            self.sample_bigrams(lines.drop_last(), i, j) + self.bigram_count(lines.last(), 0, i, j)
        }
    }

    /// Both tables hold the same symbols under the same codes.
    spec fn same_symbols(&self, o: &Self) -> bool {
        &&& self.n_symbols == o.n_symbols
        &&& forall|c: int| 0 <= c < 256 + self.n_symbols ==> #[trigger] self.symbols@[c] == o.symbols@[c]
    }

    /// A taken slot of one table is taken in the other, with the same code.
    proof fn lemma_slots_determined(a: &Self, b: &Self, w: Symbol)
        requires
            a.wf(),
            b.wf(),
            a.same_symbols(b),
        ensures
            ({
                let e = a.phs.table@[slot_of(w.value & 0xff_ffff)];
                let f = b.phs.table@[slot_of(w.value & 0xff_ffff)];
                e.used ==> f.used && e.val == f.val
            }),
            ({
                let e = a.symbols_2_byte@[(w.value & 0xffff) as int];
                let f = b.symbols_2_byte@[(w.value & 0xffff) as int];
                e.used ==> f.used && e.val == f.val
            }),
            ({
                let e = a.symbols_1_byte@[(w.value & 0xff) as int];
                let f = b.symbols_1_byte@[(w.value & 0xff) as int];
                e.used ==> f.used && e.val == f.val
            }),
    {
        lemma_heads_in_range(w.value);
        let k3 = slot_of(w.value & 0xff_ffff);
        lemma_slot_in_range(w.value & 0xff_ffff);
        let e3 = a.phs.table@[k3];
        if e3.used {
            let c = e3.val as int;
            assert(b.symbols@[c] == a.symbols@[c]);
            assert(b.registered(c));
        }
        let k2 = (w.value & 0xffff) as int;
        let e2 = a.symbols_2_byte@[k2];
        if e2.used {
            let c = e2.val as int;
            assert(b.symbols@[c] == a.symbols@[c]);
            assert(b.registered(c));
            let d = b.symbols_2_byte@[k2].val as int;
            assert(a.symbols@[d] == b.symbols@[d]);
            if d > c {
                assert(!((a.symbols@[d]).len == 16 && (a.symbols@[d].value & 0xffff) == k2));
            }
            if d < c {
                assert(!((b.symbols@[c]).len == 16 && (b.symbols@[c].value & 0xffff) == k2));
            }
        }
        let k1 = (w.value & 0xff) as int;
        let e1 = a.symbols_1_byte@[k1];
        if e1.used {
            let c = e1.val as int;
            assert(b.symbols@[c] == a.symbols@[c]);
            assert(b.registered(c));
            let d = b.symbols_1_byte@[k1].val as int;
            assert(a.symbols@[d] == b.symbols@[d]);
            if d > c {
                assert(!((a.symbols@[d]).len == 8 && (a.symbols@[d].value & 0xff) == k1));
            }
            if d < c {
                assert(!((b.symbols@[c]).len == 8 && (b.symbols@[c].value & 0xff) == k1));
            }
        }
    }

    /// The lookup depends on the symbols alone.
    proof fn lemma_lookup_determined(a: &Self, b: &Self, w: Symbol)
        requires
            a.wf(),
            b.wf(),
            a.same_symbols(b),
        ensures
            a.lookup(w) == b.lookup(w),
    {
        assert forall|c: int| 0 <= c < 256 + b.n_symbols implies #[trigger] b.symbols@[c]
            == a.symbols@[c] by {
            assert(a.symbols@[c] == b.symbols@[c]);
        }
        SymbolTable::lemma_slots_determined(a, b, w);
        SymbolTable::lemma_slots_determined(b, a, w);
        lemma_slot_in_range(w.value & 0xff_ffff);
        lemma_heads_in_range(w.value);
        let e = a.phs.table@[slot_of(w.value & 0xff_ffff)];
        if e.used {
            assert(a.symbols@[e.val as int] == b.symbols@[e.val as int]);
        }
    }

    /// The parse counts depend on the symbols alone.
    proof fn lemma_parse_counts_same_symbols(
        a: &Self,
        b: &Self,
        s: Seq<u8>,
        prev: int,
        i: int,
        j: int,
    )
        requires
            a.wf(),
            b.wf(),
            a.same_symbols(b),
        ensures
            a.unigram_count(s, i) == b.unigram_count(s, i),
            a.bigram_count(s, prev, i, j) == b.bigram_count(s, prev, i, j),
        decreases s.len(),
    {
        if s.len() > 0 {
            a.lemma_encode_step(s);
            let m = if s.len() < 8 {
                s.len() as int
            } else {
                8
            };
            lemma_pack(s.take(m));
            SymbolTable::lemma_lookup_determined(a, b, window_of(s));
            let c = a.lookup(window_of(s));
            assert(a.symbols@[c] == b.symbols@[c]);
            let k = a.symbols@[c].len / 8;
            if 1 <= k <= s.len() {
                SymbolTable::lemma_parse_counts_same_symbols(a, b, s.skip(k as int), c, i, j);
            }
        }
    }

    /// The sample counts depend on the symbols alone.
    proof fn lemma_sample_counts_same_symbols(
        a: &Self,
        b: &Self,
        lines: Seq<Seq<u8>>,
        i: int,
        j: int,
    )
        requires
            a.wf(),
            b.wf(),
            a.same_symbols(b),
        ensures
            a.sample_unigrams(lines, i) == b.sample_unigrams(lines, i),
            a.sample_bigrams(lines, i, j) == b.sample_bigrams(lines, i, j),
        decreases lines.len(),
    {
        if lines.len() > 0 {
            SymbolTable::lemma_sample_counts_same_symbols(a, b, lines.drop_last(), i, j);
            SymbolTable::lemma_parse_counts_same_symbols(a, b, lines.last(), 0, i, j);
        }
    }

    /// Both tables hold the same counts.
    spec fn same_counts(&self, o: &Self) -> bool {
        &&& forall|i: int| 0 <= i < 512 ==> #[trigger] self.counters.count1(i) == o.counters.count1(i)
        &&& forall|i: int, j: int|
            0 <= i < 512 && 0 <= j < 512 ==> #[trigger] self.counters.count2(i, j)
                == o.counters.count2(i, j)
    }

    /// The candidates depend on the symbols and the counts alone.
    proof fn lemma_candidates_determined(a: &Self, b: &Self, f: int, upto: int)
        requires
            a.wf(),
            b.wf(),
            a.same_symbols(b),
            a.same_counts(b),
            upto <= 256 + a.n_symbols,
        ensures
            a.candidates_upto(f, upto) == b.candidates_upto(f, upto),
        decreases upto,
    {
        if upto > 0 {
            SymbolTable::lemma_candidates_determined(a, b, f, upto - 1);
            let c = upto - 1;
            assert(a.symbols@[c] == b.symbols@[c]);
            assert(a.counters.count1(c) == b.counters.count1(c));
            SymbolTable::lemma_pairs_determined(a, b, c, 256 + a.n_symbols);
        }
    }

    proof fn lemma_pairs_determined(a: &Self, b: &Self, c1: int, upto: int)
        requires
            a.wf(),
            b.wf(),
            a.same_symbols(b),
            a.same_counts(b),
            0 <= c1 < 256 + a.n_symbols,
            upto <= 256 + a.n_symbols,
        ensures
            a.pair_candidates(c1, upto) == b.pair_candidates(c1, upto),
        decreases upto,
    {
        if upto > 0 {
            SymbolTable::lemma_pairs_determined(a, b, c1, upto - 1);
            assert(a.symbols@[c1] == b.symbols@[c1]);
            assert(a.symbols@[upto - 1] == b.symbols@[upto - 1]);
            assert(a.counters.count2(c1, upto - 1) == b.counters.count2(c1, upto - 1));
        }
    }

    /// Both tables hold the same symbols and registrations.
    spec fn same_dictionary(&self, o: &Self) -> bool {
        &&& self.n_symbols == o.n_symbols
        &&& self.symbols == o.symbols
        &&& self.symbols_1_byte == o.symbols_1_byte
        &&& self.symbols_2_byte == o.symbols_2_byte
        &&& self.phs == o.phs
    }

    /// `self` is what rebuilding with support `sample_frac` makes of table
    /// `t`: the counters of `t` hold the greedy-parse counts of `sample` over
    /// the dictionary of `t`, and the learned symbols of `self` are the
    /// refill from the candidates of `t` in rank order.
    pub closed spec fn refilled_from(
        &self,
        t: SymbolTable,
        sample: Seq<Seq<u8>>,
        sample_frac: int,
    ) -> bool {
        &&& t.wf()
        &&& forall|i: int|
            0 <= i < 512 ==> #[trigger] t.counters.count1(i) == t.sample_unigrams(sample, i)
        &&& forall|i: int, j: int|
            0 <= i < 512 && 0 <= j < 512 ==> #[trigger] t.counters.count2(i, j)
                == t.sample_bigrams(sample, i, j)
        &&& exists|sorted: Seq<HeapPair>|
            {
                &&& #[trigger] sorted.to_multiset() == t.candidates(sample_frac).to_multiset()
                &&& sorted_by_rank(sorted)
                &&& self.learned() == refill(Set::empty(), sorted, Seq::empty())
            }
    }

    /// `self` is what one generation makes of table `a`: counting `sample`
    /// over the symbols of `a`, then rebuilding with support `sample_frac`.
    pub closed spec fn generation_of(
        &self,
        a: SymbolTable,
        sample: Seq<Seq<u8>>,
        sample_frac: int,
    ) -> bool {
        &&& self.wf()
        &&& exists|t: SymbolTable|
            #[trigger] self.refilled_from(t, sample, sample_frac) && t.same_symbols(&a)
    }

    /// `self` is what the five generations of training make of a table with
    /// no learned symbols, counting over `sample`.
    pub closed spec fn trained_on(&self, sample: Seq<Seq<u8>>) -> bool {
        exists|ts: Seq<SymbolTable>|
            {
                &&& #[trigger] ts.len() == 6
                &&& ts[0].wf()
                &&& ts[0].n_symbols == 0
                &&& forall|g: int|
                    0 <= g < 5 ==> #[trigger] ts[g + 1].generation_of(ts[g], sample, schedule()[g])
                &&& ts[5] == *self
            }
    }

    /// Trains a table on the lines of `text`: starting from the base bytes
    /// alone, five generations, each counting over the sample of `text` and
    /// then rebuilding the dictionary, with minimum support rising over the
    /// schedule 8, 38, 68, 98, 128. The result is determined by the bytes of
    /// `text` (see `lemma_build_deterministic`).
    pub fn build(text: &[&[u8]]) -> (r: SymbolTable)
        ensures
            r.wf(),
            r.n() <= MAX_SYMBOLS,
            r.trained_on(sample_of(text@)),
    {
        let mut st = SymbolTable::new();
        let sample = make_sample(text);
        let ghost views = sample_views(sample@);
        let ghost mut ts: Seq<SymbolTable> = seq![st];
        let generations: [usize; 5] = [8, 38, 68, 98, 128];
        let mut g: usize = 0;
        while g < 5
            invariant
                st.wf(),
                st.counters.all_zero(),
                sample_len(sample@) < FSST_SAMPLETARGET + FSST_SAMPLELINE,
                generations@ == seq![8usize, 38, 68, 98, 128],
                g <= 5,
                views == sample_views(sample@),
                views == sample_of(text@),
                ts.len() == g + 1,
                ts[0].wf(),
                ts[0].n_symbols == 0,
                forall|h: int|
                    0 <= h < g ==> #[trigger] ts[h + 1].generation_of(ts[h], views, schedule()[h]),
                ts[g as int] == st,
            decreases 5 - g,
        {
            let ghost d = st;
            let mut j: usize = 0;
            let mut counted: usize = 0;
            proof {
                assert(views.take(0) =~= Seq::<Seq<u8>>::empty());
            }
            while j < sample.len()
                invariant
                    st.wf(),
                    j <= sample@.len(),
                    counted == sample_len(sample@.take(j as int)),
                    st.counters.bounded_by(counted as nat),
                    sample_len(sample@) < FSST_SAMPLETARGET + FSST_SAMPLELINE,
                    views == sample_views(sample@),
                    st.same_dictionary(&d),
                    d.wf(),
                    forall|i: int|
                        0 <= i < 512 ==> #[trigger] st.counters.count1(i) == d.sample_unigrams(
                            views.take(j as int),
                            i,
                        ),
                    forall|i: int, k: int|
                        0 <= i < 512 && 0 <= k < 512 ==> #[trigger] st.counters.count2(i, k)
                            == d.sample_bigrams(views.take(j as int), i, k),
                decreases sample@.len() - j,
            {
                proof {
                    lemma_sample_len_prefix(sample@, j as int);
                    lemma_sample_len_prefix(sample@, j + 1);
                }
                let ghost before = st;
                st.compress_count(sample[j].as_slice(), Ghost(counted as nat));
                proof {
                    assert(before.same_symbols(&d));
                    let line = sample@[j as int]@;
                    assert(views.take(j + 1).drop_last() =~= views.take(j as int));
                    assert(views.take(j + 1).last() == line);
                    assert forall|i: int| 0 <= i < 512 implies #[trigger] st.counters.count1(i)
                        == d.sample_unigrams(views.take(j + 1), i) by {
                        SymbolTable::lemma_parse_counts_same_symbols(&before, &d, line, 0, i, 0);
                    }
                    assert forall|i: int, k: int| 0 <= i < 512 && 0 <= k < 512 implies #[trigger] st.counters.count2(
                        i,
                        k,
                    ) == d.sample_bigrams(views.take(j + 1), i, k) by {
                        SymbolTable::lemma_parse_counts_same_symbols(&before, &d, line, 0, i, k);
                    }
                }
                counted = counted + sample[j].len();
                j = j + 1;
            }
            proof {
                lemma_sample_len_prefix(sample@, j as int);
                st.counters.lemma_bounded_by_mono(counted as nat, COUNT_LIMIT as nat);
                assert(views.take(j as int) =~= views);
            }
            let ghost t = st;
            st.make_table(generations[g]);
            proof {
                assert(t.same_symbols(&d));
                assert(generations@[g as int] == schedule()[g as int]);
                assert forall|i: int| 0 <= i < 512 implies #[trigger] t.counters.count1(i)
                    == t.sample_unigrams(views, i) by {
                    SymbolTable::lemma_sample_counts_same_symbols(&t, &d, views, i, 0);
                }
                assert forall|i: int, k: int| 0 <= i < 512 && 0 <= k < 512 implies #[trigger] t.counters.count2(
                    i,
                    k,
                ) == t.sample_bigrams(views, i, k) by {
                    SymbolTable::lemma_sample_counts_same_symbols(&t, &d, views, i, k);
                }
                assert(st.refilled_from(t, views, schedule()[g as int]));
                assert forall|c: int| 0 <= c < 256 + t.n_symbols implies #[trigger] t.symbols@[c]
                    == d.symbols@[c] by {}
                assert(t.same_symbols(&d));
                assert(st.generation_of(d, views, schedule()[g as int]));
                let ts0 = ts;
                ts = ts.push(st);
                assert forall|h: int| 0 <= h < g + 1 implies #[trigger] ts[h + 1].generation_of(
                    ts[h],
                    views,
                    schedule()[h],
                ) by {
                    if h < g {
                        assert(ts0[h + 1].generation_of(ts0[h], views, schedule()[h]));
                        assert(ts[h + 1] == ts0[h + 1]);
                        assert(ts[h] == ts0[h]);
                    } else {
                        assert(ts[h] == d);
                        assert(ts[h + 1] == st);
                    }
                }
            }
            g = g + 1;
        }
        proof {
            assert(ts.len() == 6);
        }
        st
    }
}

impl SymbolTable {
    /// The learned symbols fix which symbol each code holds.
    proof fn lemma_same_learned(a: &Self, b: &Self)
        requires
            a.wf(),
            b.wf(),
            a.learned() == b.learned(),
        ensures
            a.same_symbols(b),
    {
        assert(a.learned().len() == a.n_symbols);
        assert(b.learned().len() == b.n_symbols);
        assert forall|c: int| 0 <= c < 256 + a.n_symbols implies #[trigger] a.symbols@[c]
            == b.symbols@[c] by {
            if c >= 256 {
                assert(a.symbols@[c] == a.learned()[c - 256]);
                assert(b.symbols@[c] == b.learned()[c - 256]);
            }
        }
    }

    /// Tables that one generation makes from tables with the same symbols
    /// hold the same symbols.
    proof fn lemma_generation_determined(
        a1: &Self,
        a2: &Self,
        b1: &Self,
        b2: &Self,
        sample: Seq<Seq<u8>>,
        f: int,
    )
        requires
            a1.wf(),
            a2.wf(),
            a1.same_symbols(a2),
            b1.generation_of(*a1, sample, f),
            b2.generation_of(*a2, sample, f),
        ensures
            b1.same_symbols(b2),
    {
        let t1 = choose|t: SymbolTable| #[trigger] b1.refilled_from(t, sample, f) && t.same_symbols(a1);
        let t2 = choose|t: SymbolTable| #[trigger] b2.refilled_from(t, sample, f) && t.same_symbols(a2);
        assert(t1.same_symbols(&t2)) by {
            assert forall|c: int| 0 <= c < 256 + t1.n_symbols implies #[trigger] t1.symbols@[c]
                == t2.symbols@[c] by {
                assert(t1.symbols@[c] == a1.symbols@[c]);
                assert(a1.symbols@[c] == a2.symbols@[c]);
                assert(t2.symbols@[c] == a2.symbols@[c]);
            }
        }
        assert(t1.same_counts(&t2)) by {
            assert forall|i: int| 0 <= i < 512 implies #[trigger] t1.counters.count1(i)
                == t2.counters.count1(i) by {
                SymbolTable::lemma_sample_counts_same_symbols(&t1, &t2, sample, i, 0);
            }
            assert forall|i: int, j: int| 0 <= i < 512 && 0 <= j < 512 implies #[trigger] t1.counters.count2(
                i,
                j,
            ) == t2.counters.count2(i, j) by {
                SymbolTable::lemma_sample_counts_same_symbols(&t1, &t2, sample, i, j);
            }
        }
        SymbolTable::lemma_candidates_determined(&t1, &t2, f, 256 + t1.n_symbols);
        let s1 = choose|sorted: Seq<HeapPair>|
            {
                &&& #[trigger] sorted.to_multiset() == t1.candidates(f).to_multiset()
                &&& sorted_by_rank(sorted)
                &&& b1.learned() == refill(Set::empty(), sorted, Seq::empty())
            };
        let s2 = choose|sorted: Seq<HeapPair>|
            {
                &&& #[trigger] sorted.to_multiset() == t2.candidates(f).to_multiset()
                &&& sorted_by_rank(sorted)
                &&& b2.learned() == refill(Set::empty(), sorted, Seq::empty())
            };
        lemma_sorted_unique(s1, s2);
        SymbolTable::lemma_same_learned(b1, b2);
    }

    /// The encoding depends on the symbols alone.
    proof fn lemma_encode_same_symbols(a: &Self, b: &Self, s: Seq<u8>)
        requires
            a.wf(),
            b.wf(),
            a.same_symbols(b),
        ensures
            a.encode_spec(s) == b.encode_spec(s),
        decreases s.len(),
    {
        if s.len() > 0 {
            a.lemma_encode_step(s);
            let m = if s.len() < 8 {
                s.len() as int
            } else {
                8
            };
            lemma_pack(s.take(m));
            SymbolTable::lemma_lookup_determined(a, b, window_of(s));
            let c = a.lookup(window_of(s));
            assert(a.symbols@[c] == b.symbols@[c]);
            let k = a.symbols@[c].len / 8;
            SymbolTable::lemma_encode_same_symbols(a, b, s.skip(k as int));
        }
    }
}

/// The generations of two trainings on the same sample hold the same
/// symbols, up to generation `g`.
proof fn lemma_chains_agree(ts1: Seq<SymbolTable>, ts2: Seq<SymbolTable>, sample: Seq<Seq<u8>>, g: int)
    requires
        0 <= g <= 5,
        ts1.len() == 6,
        ts2.len() == 6,
        ts1[0].wf(),
        ts2[0].wf(),
        ts1[0].n_symbols == 0,
        ts2[0].n_symbols == 0,
        forall|h: int| 0 <= h < 5 ==> #[trigger] ts1[h + 1].generation_of(ts1[h], sample, schedule()[h]),
        forall|h: int| 0 <= h < 5 ==> #[trigger] ts2[h + 1].generation_of(ts2[h], sample, schedule()[h]),
    ensures
        ts1[g].wf(),
        ts2[g].wf(),
        ts1[g].same_symbols(&ts2[g]),
    decreases g,
{
    if g == 0 {
        assert forall|c: int| 0 <= c < 256 + ts1[0].n_symbols implies #[trigger] ts1[0].symbols@[c]
            == ts2[0].symbols@[c] by {}
    } else {
        lemma_chains_agree(ts1, ts2, sample, g - 1);
        assert(ts1[(g - 1) + 1].generation_of(ts1[g - 1], sample, schedule()[g - 1]));
        assert(ts2[(g - 1) + 1].generation_of(ts2[g - 1], sample, schedule()[g - 1]));
        SymbolTable::lemma_generation_determined(
            &ts1[g - 1],
            &ts2[g - 1],
            &ts1[g],
            &ts2[g],
            sample,
            schedule()[g - 1],
        );
    }
}

/// Determinism of training: two tables trained on the same sample hold the
/// same learned symbols, pick the same code on every window, and encode
/// every input alike.
pub proof fn lemma_training_deterministic(r1: &SymbolTable, r2: &SymbolTable, sample: Seq<Seq<u8>>)
    requires
        r1.trained_on(sample),
        r2.trained_on(sample),
    ensures
        r1.n() == r2.n(),
        r1.learned() == r2.learned(),
        forall|w: Symbol| #[trigger] r1.lookup(w) == r2.lookup(w),
        forall|s: Seq<u8>| #[trigger] r1.encode_spec(s) == r2.encode_spec(s),
{
    let ts1 = choose|ts: Seq<SymbolTable>|
        {
            &&& #[trigger] ts.len() == 6
            &&& ts[0].wf()
            &&& ts[0].n_symbols == 0
            &&& forall|g: int|
                0 <= g < 5 ==> #[trigger] ts[g + 1].generation_of(ts[g], sample, schedule()[g])
            &&& ts[5] == *r1
        };
    let ts2 = choose|ts: Seq<SymbolTable>|
        {
            &&& #[trigger] ts.len() == 6
            &&& ts[0].wf()
            &&& ts[0].n_symbols == 0
            &&& forall|g: int|
                0 <= g < 5 ==> #[trigger] ts[g + 1].generation_of(ts[g], sample, schedule()[g])
            &&& ts[5] == *r2
        };
    lemma_chains_agree(ts1, ts2, sample, 5);
    assert(r1.learned() =~= r2.learned()) by {
        assert forall|k: int| 0 <= k < r1.learned().len() implies r1.learned()[k] == r2.learned()[k] by {
            assert(r1.symbols@[256 + k] == r2.symbols@[256 + k]);
        }
    }
    assert forall|w: Symbol| #[trigger] r1.lookup(w) == r2.lookup(w) by {
        SymbolTable::lemma_lookup_determined(r1, r2, w);
    }
    assert forall|s: Seq<u8>| #[trigger] r1.encode_spec(s) == r2.encode_spec(s) by {
        SymbolTable::lemma_encode_same_symbols(r1, r2, s);
    }
}

/// Determinism of `build`: tables trained on corpora with the same bytes
/// hold the same learned symbols, pick the same code on every window, and
/// encode every input alike.
pub proof fn lemma_build_deterministic(
    r1: &SymbolTable,
    r2: &SymbolTable,
    text1: Seq<&[u8]>,
    text2: Seq<&[u8]>,
)
    requires
        r1.trained_on(sample_of(text1)),
        r2.trained_on(sample_of(text2)),
        same_lines(text1, text2),
        text1.len() <= usize::MAX,
    ensures
        r1.n() == r2.n(),
        r1.learned() == r2.learned(),
        forall|w: Symbol| #[trigger] r1.lookup(w) == r2.lookup(w),
        forall|s: Seq<u8>| #[trigger] r1.encode_spec(s) == r2.encode_spec(s),
{
    lemma_sample_of_same_lines(text1, text2);
    lemma_training_deterministic(r1, r2, sample_of(text1));
}

/// The support parameters of the five generations.
pub open spec fn schedule() -> Seq<int> {
    seq![8int, 38, 68, 98, 128]
}

/// Two candidate lists in rank order with the same items are the same list.
pub proof fn lemma_sorted_unique(x: Seq<HeapPair>, y: Seq<HeapPair>)
    requires
        sorted_by_rank(x),
        sorted_by_rank(y),
        x.to_multiset() == y.to_multiset(),
    ensures
        x == y,
    decreases x.len(),
{
    broadcast use vstd::seq_lib::group_to_multiset_ensures;

    assert(x.len() == x.to_multiset().len());
    assert(y.len() == y.to_multiset().len());
    if x.len() == 0 {
        assert(x =~= y);
    } else {
        let n = x.len() - 1;
        let a = x[n];
        let b = y[n];
        assert(x.to_multiset().count(b) > 0) by {
            assert(y.contains(b));
        }
        assert(x.contains(b));
        let ib = choose|i: int| 0 <= i < x.len() && x[i] == b;
        assert(rank_le(b, a)) by {
            if ib < n {
            }
        }
        assert(y.to_multiset().count(a) > 0) by {
            assert(x.contains(a));
        }
        assert(y.contains(a));
        let ia = choose|i: int| 0 <= i < y.len() && y[i] == a;
        assert(rank_le(a, b)) by {
            if ia < n {
            }
        }
        assert(a.1 == b.1);
        assert(a == b);
        assert(x.remove(n) =~= x.drop_last());
        assert(y.remove(n) =~= y.drop_last());
        assert(x.drop_last().to_multiset() == x.to_multiset().remove(a));
        assert(y.drop_last().to_multiset() == y.to_multiset().remove(b));
        lemma_sorted_unique(x.drop_last(), y.drop_last());
        assert(x =~= x.drop_last().push(a));
        assert(y =~= y.drop_last().push(b));
    }
}

/// A code stream in which every escape byte is followed by the byte it
/// escapes.
pub open spec fn escapes_complete(e: Seq<u8>) -> bool
    decreases e.len(),
{
    if e.len() == 0 {
        true
    } else if e[0] == 255 {
        e.len() >= 2 && escapes_complete(e.skip(2))
    } else {
        escapes_complete(e.skip(1))
    }
}

impl SymbolTable {
    /// The code stream for `s`: at each position the lookup on the next (at
    /// most eight) bytes picks a code; a learned code `c` is written as the
    /// byte `c - 256` and a base code as the escape byte and the literal.
    pub closed spec fn encode_spec(&self, s: Seq<u8>) -> Seq<u8>
        decreases s.len(),
    {
        if s.len() == 0 {
            Seq::empty()
        } else {
            let c = self.lookup(window_of(s));
            let k = self.symbols@[c].len / 8;
            let tok = if c >= 256 {
                seq![(c - 256) as u8]
            } else {
                seq![255u8, s[0]]
            };
            if 1 <= k <= s.len() {
                tok + self.encode_spec(s.skip(k as int))
            } else {
                tok
            }
        }
    }

    /// The bytes that the code stream `e` stands for, or the first fault in
    /// it.
    pub closed spec fn decode_spec(&self, e: Seq<u8>) -> Result<Seq<u8>, DecodeError>
        decreases e.len(),
    {
        if e.len() == 0 {
            Ok(Seq::empty())
        } else if e[0] == 255 {
            if e.len() < 2 {
                Err(DecodeError::TruncatedEscape)
            } else {
                match self.decode_spec(e.skip(2)) {
                    Ok(r) => Ok(seq![e[1]] + r),
                    Err(x) => Err(x),
                }
            }
        } else if (e[0] as nat) < self.n() {
            match self.decode_spec(e.skip(1)) {
                Ok(r) => Ok(self.symbol_at(256 + e[0]) + r),
                Err(x) => Err(x),
            }
        } else {
            Err(DecodeError::UnknownCode)
        }
    }

    /// One step of the encoder: the code picked at the head of `s` covers
    /// between one byte and the whole window.
    proof fn lemma_encode_step(&self, s: Seq<u8>)
        requires
            self.wf(),
            s.len() > 0,
        ensures
            ({
                let w = window_of(s);
                let c = self.lookup(w);
                let k = self.symbols@[c].len / 8;
                &&& w.wf()
                &&& 8 <= w.len
                &&& w@ == s.take(if s.len() < 8 { s.len() as int } else { 8 })
                &&& w@[0] == s[0]
                &&& 0 <= c < 256 + self.n()
                &&& 1 <= k <= s.len()
                &&& self.symbol_at(c) == s.take(k as int)
                &&& c < 256 ==> k == 1 && self.symbol_at(c) == seq![s[0]]
                &&& c >= 256 ==> c - 256 < 255
            }),
    {
        let m = if s.len() < 8 {
            s.len() as int
        } else {
            8
        };
        lemma_pack(s.take(m));
        let w = window_of(s);
        self.lemma_lookup_prefix(w);
        let c = self.lookup(w);
        let t = self.symbol_at(c);
        assert(t =~= s.take(t.len() as int)) by {
            assert forall|i: int| 0 <= i < t.len() implies t[i] == s[i] by {
                assert(t[i] == w@.subrange(0, t.len() as int)[i]);
            }
        }
    }

    /// Appends the code stream for `string` to `buffer`.
    pub fn encode(&self, string: &[u8], buffer: &mut Vec<u8>)
        requires
            self.wf(),
        ensures
            final(buffer)@ == old(buffer)@ + self.encode_spec(string@),
    {
        let mut p: usize = 0;
        proof {
            assert(string@.skip(0) =~= string@);
        }
        while p < string.len()
            invariant
                self.wf(),
                p <= string@.len(),
                buffer@ + self.encode_spec(string@.skip(p as int)) == old(buffer)@
                    + self.encode_spec(string@),
            decreases string@.len() - p,
        {
            let ghost rest = string@.skip(p as int);
            let ghost before = buffer@;
            let symbol = load_window(string, p);
            let code = self.find_longest_symbol(&symbol);
            proof {
                self.lemma_encode_step(rest);
                lemma_heads_in_range(symbol.value);
            }
            if code >= TABLE_LENGTH {
                buffer.push((code - TABLE_LENGTH) as u8);
            } else {
                buffer.push(ESCAPE);
                buffer.push(symbol.first1byte() as u8);
            }
            let adv = self.symbols[code].len / 8;
            proof {
                let tok = if code >= 256 {
                    seq![(code - 256) as u8]
                } else {
                    seq![255u8, rest[0]]
                };
                assert(buffer@ =~= before + tok);
                assert(rest.skip(adv as int) =~= string@.skip(p + adv));
                assert(self.encode_spec(rest) == tok + self.encode_spec(rest.skip(adv as int)));
                assert(buffer@ + self.encode_spec(string@.skip(p + adv)) =~= before
                    + self.encode_spec(rest));
            }
            p = p + adv;
        }
        proof {
            assert(string@.skip(p as int) =~= Seq::<u8>::empty());
            assert(buffer@ + Seq::<u8>::empty() =~= buffer@);
        }
    }

    /// Appends the bytes that the code stream `string` stands for to
    /// `buffer`; on a malformed stream reports the first fault and leaves
    /// `buffer` as it was.
    pub fn decode(&self, string: &[u8], buffer: &mut Vec<u8>) -> (r: Result<(), DecodeError>)
        requires
            self.wf(),
        ensures
            match self.decode_spec(string@) {
                Ok(d) => r == Ok::<(), DecodeError>(()) && final(buffer)@ == old(buffer)@ + d,
                Err(x) => r == Err::<(), DecodeError>(x) && final(buffer)@ == old(buffer)@,
            },
    {
        let start = buffer.len();
        let mut i: usize = 0;
        proof {
            assert(string@.skip(0) =~= string@);
            assert(buffer@.take(start as int) =~= old(buffer)@);
            assert(buffer@.skip(start as int) =~= Seq::<u8>::empty());
            match self.decode_spec(string@) {
                Ok(r) => {
                    assert(Seq::<u8>::empty() + r =~= r);
                },
                Err(x) => {},
            }
        }
        while i < string.len()
            invariant
                self.wf(),
                i <= string@.len(),
                start == old(buffer)@.len(),
                buffer@.len() >= start,
                buffer@.take(start as int) == old(buffer)@,
                match self.decode_spec(string@.skip(i as int)) {
                    Ok(r) => self.decode_spec(string@) == Ok::<Seq<u8>, DecodeError>(
                        buffer@.skip(start as int) + r,
                    ),
                    Err(x) => self.decode_spec(string@) == Err::<Seq<u8>, DecodeError>(x),
                },
            decreases string@.len() - i,
        {
            let ghost rest = string@.skip(i as int);
            let ghost before = buffer@;
            let b = string[i];
            if b == ESCAPE {
                if i + 1 >= string.len() {
                    buffer.truncate(start);
                    proof {
                        assert(buffer@ =~= old(buffer)@);
                    }
                    return Err(DecodeError::TruncatedEscape);
                }
                buffer.push(string[i + 1]);
                proof {
                    assert(rest.skip(2) =~= string@.skip(i + 2));
                    assert(buffer@.take(start as int) =~= before.take(start as int));
                    match self.decode_spec(rest.skip(2)) {
                        Ok(r) => {
                            assert(buffer@.skip(start as int) + r =~= before.skip(start as int)
                                + (seq![rest[1]] + r));
                        },
                        Err(x) => {},
                    }
                }
                i = i + 2;
            } else {
                if b as usize >= self.n_symbols {
                    buffer.truncate(start);
                    proof {
                        assert(buffer@ =~= old(buffer)@);
                    }
                    return Err(DecodeError::UnknownCode);
                }
                let sym = self.symbols[TABLE_LENGTH + b as usize];
                push_symbol(buffer, &sym);
                proof {
                    assert(rest.skip(1) =~= string@.skip(i + 1));
                    assert(buffer@.take(start as int) =~= before.take(start as int));
                    match self.decode_spec(rest.skip(1)) {
                        Ok(r) => {
                            assert(buffer@.skip(start as int) + r =~= before.skip(start as int)
                                + (self.symbol_at(256 + b) + r));
                        },
                        Err(x) => {},
                    }
                }
                i = i + 1;
            }
        }
        proof {
            assert(string@.skip(i as int) =~= Seq::<u8>::empty());
            assert(buffer@ =~= old(buffer)@ + buffer@.skip(start as int));
            assert(buffer@.skip(start as int) + Seq::<u8>::empty() =~= buffer@.skip(start as int));
        }
        Ok(())
    }
}

/// One step of the encoding: the empty input encodes to nothing; otherwise
/// the lookup on the first (at most eight) bytes picks a code whose symbol
/// the input begins with, a learned code `c` is written as the byte
/// `c - 256` and a base code as the escape byte and the first byte, and the
/// encoding goes on after that symbol.
pub proof fn lemma_encode_unfold(t: &SymbolTable, s: Seq<u8>)
    requires
        t.wf(),
    ensures
        s.len() == 0 ==> t.encode_spec(s) == Seq::<u8>::empty(),
        s.len() > 0 ==> ({
            let c = t.lookup(window_of(s));
            let k = t.symbol_at(c).len();
            &&& 0 <= c < 256 + t.n()
            &&& 1 <= k <= s.len()
            &&& t.symbol_at(c) == s.take(k as int)
            &&& c < 256 ==> t.symbol_at(c) == seq![s[0]]
            &&& t.encode_spec(s) == (if c >= 256 {
                seq![(c - 256) as u8]
            } else {
                seq![255u8, s[0]]
            }) + t.encode_spec(s.skip(k as int))
        }),
{
    if s.len() > 0 {
        t.lemma_encode_step(s);
    }
}

/// One step of the decoding: the empty stream decodes to nothing; an escape
/// byte stands for the byte after it, and is a fault at the end of the
/// stream; a code below the number of learned symbols stands for its
/// symbol; any other code is a fault.
pub proof fn lemma_decode_unfold(t: &SymbolTable, e: Seq<u8>)
    ensures
        e.len() == 0 ==> t.decode_spec(e) == Ok::<Seq<u8>, DecodeError>(Seq::empty()),
        e.len() == 1 && e[0] == 255 ==> t.decode_spec(e) == Err::<Seq<u8>, DecodeError>(
            DecodeError::TruncatedEscape,
        ),
        e.len() >= 2 && e[0] == 255 ==> t.decode_spec(e) == match t.decode_spec(e.skip(2)) {
            Ok(r) => Ok::<Seq<u8>, DecodeError>(seq![e[1]] + r),
            Err(x) => Err::<Seq<u8>, DecodeError>(x),
        },
        e.len() >= 1 && e[0] != 255 && (e[0] as nat) < t.n() ==> t.decode_spec(e) == match t.decode_spec(
            e.skip(1),
        ) {
            Ok(r) => Ok::<Seq<u8>, DecodeError>(t.symbol_at(256 + e[0]) + r),
            Err(x) => Err::<Seq<u8>, DecodeError>(x),
        },
        e.len() >= 1 && e[0] != 255 && (e[0] as nat) >= t.n() ==> t.decode_spec(e) == Err::<
            Seq<u8>,
            DecodeError,
        >(DecodeError::UnknownCode),
{
}

/// What the invariant says of the number of learned symbols and of the base
/// codes.
pub proof fn lemma_wf_bounds(t: &SymbolTable)
    requires
        t.wf(),
    ensures
        t.n() <= MAX_SYMBOLS,
        forall|c: int| 0 <= c < 256 ==> #[trigger] t.symbol_at(c) == seq![c as u8],
        forall|c: int| 256 <= c < 256 + t.n() ==> 1 <= (#[trigger] t.symbol_at(c)).len() <= 8,
{
    assert forall|c: int| 256 <= c < 256 + t.n() implies 1 <= (#[trigger] t.symbol_at(c)).len()
        <= 8 by {
        assert(t.symbols@[c].wf());
    }
}

/// Round trip: decoding what the table encodes gives the input back, for
/// every input and every table.
pub proof fn lemma_round_trip(t: &SymbolTable, s: Seq<u8>)
    requires
        t.wf(),
    ensures
        t.decode_spec(t.encode_spec(s)) == Ok::<Seq<u8>, DecodeError>(s),
    decreases s.len(),
{
    if s.len() == 0 {
        assert(s =~= Seq::<u8>::empty());
        assert(t.encode_spec(s) =~= Seq::<u8>::empty());
    } else {
        t.lemma_encode_step(s);
        let c = t.lookup(window_of(s));
        let k = t.symbols@[c].len / 8;
        let rest = s.skip(k as int);
        lemma_round_trip(t, rest);
        let e = t.encode_spec(s);
        if c >= 256 {
            assert(e == seq![(c - 256) as u8] + t.encode_spec(rest));
            assert(e.skip(1) =~= t.encode_spec(rest));
            assert(e[0] == (c - 256) as u8);
            assert(e[0] as int == c - 256);
            assert(256 + e[0] == c);
            assert(t.symbol_at(256 + e[0]) + rest =~= s);
        } else {
            assert(e == seq![255u8, s[0]] + t.encode_spec(rest));
            assert(e.skip(2) =~= t.encode_spec(rest));
            assert(seq![e[1]] + rest =~= s);
        }
    }
}

/// Escape safety: in every encoded stream each escape byte is followed by
/// the literal it escapes.
pub proof fn lemma_escapes_complete(t: &SymbolTable, s: Seq<u8>)
    requires
        t.wf(),
    ensures
        escapes_complete(t.encode_spec(s)),
    decreases s.len(),
{
    if s.len() > 0 {
        t.lemma_encode_step(s);
        let c = t.lookup(window_of(s));
        let k = t.symbols@[c].len / 8;
        let rest = s.skip(k as int);
        lemma_escapes_complete(t, rest);
        let e = t.encode_spec(s);
        if c >= 256 {
            assert(e.skip(1) =~= t.encode_spec(rest));
        } else {
            assert(e.skip(2) =~= t.encode_spec(rest));
        }
    }
}

/// Lookup consistency: when a window begins with a learned symbol, the lookup
/// returns a symbol that the window also begins with, at least as long.
pub proof fn lemma_lookup_consistent(t: &SymbolTable, c: int, w: Symbol)
    requires
        t.wf(),
        256 <= c < 256 + t.n(),
        w.wf(),
        t.symbol_at(c).is_prefix_of(w@),
    ensures
        t.symbol_at(t.lookup(w)).is_prefix_of(w@),
        t.symbol_at(t.lookup(w)).len() >= t.symbol_at(c).len(),
{
    let s = t.symbols@[c];
    assert(w.len >= 8);
    t.lemma_lookup_prefix(w);
    lemma_heads_in_range(s.value);
    lemma_slot_in_range(s.value & 0xff_ffff);
    lemma_first_bytes(w.value, s.value);
    assert(agree_on(w.value, s.value, (s.len / 8) as int)) by {
        assert forall|i: int| 0 <= i < s.len / 8 implies byte_of(w.value, i) == byte_of(
            s.value,
            i,
        ) by {
            assert(s@[i] == w@[i]);
        }
    }
    let r = t.lookup(w);
    if s.len >= 24 {
        assert(t.registered(c));
        assert(r == c);
    } else if s.len == 16 {
        assert(t.registered(c));
        lemma_heads_in_range(w.value);
        assert(agree_on(w.value, s.value, 2));
        assert((w.value & 0xffff) == (s.value & 0xffff));
        assert(t.symbols_2_byte@[(w.value & 0xffff) as int].used);
        assert(w.len >= 16);
        lemma_slot_in_range(w.value & 0xff_ffff);
        let e = t.phs.table@[slot_of(w.value & 0xff_ffff)];
        if e.used {
            assert(t.symbols@[e.val as int].len >= 24);
        }
        assert(t.symbols@[r].len >= 16);
    } else {
        assert(t.symbols@[r].len >= 8);
    }
}


} // verus!
