use vstd::prelude::*;

verus! {

/// A byte string of at most eight bytes, packed little-endian into `value`
/// (the first byte in bits 0..8); `len` is its length in bits.
#[derive(Clone, Copy, PartialEq, Eq, Structural, Hash, Debug)]
pub struct Symbol {
    pub value: u64,
    pub len: usize,
}

/// The `i`-th byte of a packed word.
pub open spec fn byte_of(v: u64, i: int) -> u8 {
    ((v >> ((8 * i) as u64)) & 0xff) as u8
}

/// Mask selecting the low `bits` bits of a word.
pub open spec fn low_mask(bits: u64) -> u64 {
    if bits == 0 {
        0
    } else {
        u64::MAX >> ((64 - bits) as u64)
    }
}

/// The word that packs the bytes of `s`, the first byte lowest.
pub open spec fn pack(s: Seq<u8>) -> u64
    decreases s.len(),
{
    if s.len() == 0 {
        0
    } else {
        pack(s.drop_last()) | ((s.last() as u64) << ((8 * (s.len() - 1)) as u64))
    }
}

/// The symbol holding the bytes of `s`.
pub open spec fn symbol_of(s: Seq<u8>) -> Symbol {
    Symbol { value: pack(s), len: (8 * s.len()) as usize }
}

/// The first `k` bytes of the two words agree.
pub open spec fn agree_on(a: u64, b: u64, k: int) -> bool {
    forall|i: int| 0 <= i < k ==> byte_of(a, i) == byte_of(b, i)
}

impl View for Symbol {
    type V = Seq<u8>;

    open spec fn view(&self) -> Seq<u8> {
        Seq::new((self.len / 8) as nat, |i: int| byte_of(self.value, i))
    }
}

impl Symbol {
    /// A whole number of bytes, at most eight, and no bits set past them.
    pub open spec fn wf(self) -> bool {
        &&& self.len % 8 == 0
        &&& self.len <= 64
        &&& self.len < 64 ==> self.value >> (self.len as u64) == 0
    }

    /// The packed concatenation of two symbols.
    pub open spec fn concat(self, other: Symbol) -> Symbol {
        Symbol {
            value: if other.len == 0 {
                self.value
            } else {
                self.value | (other.value << (self.len as u64))
            },
            len: (self.len + other.len) as usize,
        }
    }

    pub fn new() -> (r: Symbol)
        ensures
            r.wf(),
            r@ == Seq::<u8>::empty(),
            r.value == 0,
            r.len == 0,
    {
        proof {
            assert((0u64 >> 0u64) == 0) by (bit_vector);
        }
        Symbol { value: 0, len: 0 }
    }

    pub fn with(value: u64, len: usize) -> (r: Symbol)
        ensures
            r.value == value,
            r.len == len,
    {
        Symbol { value, len }
    }

    /// Appends one byte.
    pub fn add_char(&mut self, char: u8)
        requires
            old(self).wf(),
            old(self).len < 64,
        ensures
            final(self).wf(),
            final(self)@ == old(self)@.push(char),
            final(self).value == old(self).value | ((char as u64) << (old(self).len as u64)),
            final(self).len == old(self).len + 8,
    {
        proof {
            lemma_add_byte(self.value, char as u64, self.len as u64);
        }
        self.value = self.value | ((char as u64) << (self.len as u64));
        self.len = self.len + 8;
        proof {
            assert(self@ =~= old(self)@.push(char));
        }
    }

    /// Whether the first `other.len` bits of both words agree, that is,
    /// whether `self` begins with the bytes of `other`.
    pub fn starts_with(&self, other: &Self) -> (r: bool)
        requires
            other.wf(),
        ensures
            r == agree_on(self.value, other.value, (other.len / 8) as int),
            other.len <= self.len ==> (r == other@.is_prefix_of(self@)),
    {
        let mask: u64 = if other.len == 0 {
            0
        } else {
            u64::MAX >> ((64 - other.len) as u64)
        };
        let r = ((self.value ^ other.value) & mask) == 0;
        proof {
            let k = (other.len / 8) as nat;
            let x = self.value ^ other.value;
            assert(8 * k == other.len);
            assert(mask == low_mask((8 * k) as u64));
            lemma_mask_bytes(x, k);
            assert forall|i: int| 0 <= i < k implies (byte_of(x, i) == 0 <==> byte_of(
                self.value,
                i,
            ) == byte_of(other.value, i)) by {
                lemma_xor_byte(self.value, other.value, i);
            }
            if r {
                assert forall|i: int| 0 <= i < k implies byte_of(self.value, i) == byte_of(
                    other.value,
                    i,
                ) by {
                    assert(byte_of(x, i) == 0);
                }
            }
            if agree_on(self.value, other.value, k as int) {
                assert forall|i: int| 0 <= i < k implies byte_of(x, i) == 0 by {
                    assert(byte_of(self.value, i) == byte_of(other.value, i));
                }
            }
            if other.len <= self.len {
                if r {
                    assert(other@ =~= self@.subrange(0, other@.len() as int));
                } else if other@.is_prefix_of(self@) {
                    assert forall|i: int| 0 <= i < k implies byte_of(self.value, i) == byte_of(
                        other.value,
                        i,
                    ) by {
                        assert(other@[i] == self@.subrange(0, other@.len() as int)[i]);
                    }
                }
            }
        }
        r
    }

    /// The concatenation of `self` and `other`.
    pub fn extend(&self, other: &Self) -> (r: Symbol)
        requires
            self.wf(),
            other.wf(),
            self.len + other.len <= 64,
        ensures
            r.wf(),
            r@ == self@ + other@,
            r.len == self.len + other.len,
            r == self.concat(*other),
    {
        if other.len == 0 {
            proof {
                assert(self@ + other@ =~= self@);
            }
            return *self;
        }
        proof {
            lemma_concat_words(self.value, other.value, self.len as u64, other.len as u64);
        }
        let r = Symbol::with(self.value | (other.value << (self.len as u64)), self.len + other.len);
        proof {
            assert(r@ =~= self@ + other@);
        }
        r
    }

    /// The first three bytes as an integer (the key of the hashed tier).
    pub fn first3byte(&self) -> (r: u64)
        ensures
            r == self.value & 0xff_ffff,
    {
        self.value & 0xff_ffff
    }

    /// The first two bytes as an integer.
    pub fn first2byte(&self) -> (r: u64)
        ensures
            r == self.value & 0xffff,
            r < 65536,
    {
        proof {
            let v = self.value;
            assert(v & 0xffff < 65536) by (bit_vector);
        }
        self.value & 0xffff
    }

    /// The first byte.
    pub fn first1byte(&self) -> (r: u64)
        requires
            self.len != 0,
        ensures
            r == self.value & 0xff,
            r < 256,
            r == byte_of(self.value, 0) as u64,
    {
        proof {
            let v = self.value;
            assert(v & 0xff < 256 && (v & 0xff) == ((v >> 0u64) & 0xff)) by (bit_vector);
        }
        self.value & 0xff
    }
}

/// Appends the bytes of `s` to `buffer`.
pub fn push_symbol(buffer: &mut Vec<u8>, s: &Symbol)
    requires
        s.wf(),
    ensures
        final(buffer)@ == old(buffer)@ + s@,
{
    let n = s.len / 8;
    let mut i: usize = 0;
    while i < n
        invariant
            n == s.len / 8,
            n <= 8,
            i <= n,
            buffer@ == old(buffer)@ + s@.take(i as int),
        decreases n - i,
    {
        buffer.push(((s.value >> ((8 * i) as u64)) & 0xff) as u8);
        i = i + 1;
        proof {
            assert(s@.take(i as int) =~= s@.take(i - 1) + seq![s@[i - 1]]);
            assert(buffer@ =~= old(buffer)@ + s@.take(i as int));
        }
    }
    proof {
        assert(s@.take(n as int) =~= s@);
    }
}

/// The symbol for the bytes at the head of `s`: at most eight of them.
pub open spec fn window_of(s: Seq<u8>) -> Symbol {
    symbol_of(s.take(if s.len() < 8 { s.len() as int } else { 8 }))
}

/// Loads the bytes of `text` from `pos` on, at most eight of them, into a
/// symbol; past the end of `text` the word is zero.
pub fn load_window(text: &[u8], pos: usize) -> (r: Symbol)
    requires
        pos < text@.len(),
    ensures
        r == window_of(text@.skip(pos as int)),
        r.wf(),
        r@ == window_of(text@.skip(pos as int))@,
        8 <= r.len,
{
    let end: usize = if text.len() - pos >= 8 {
        pos + 8
    } else {
        text.len()
    };
    let mut s = Symbol::new();
    let mut i: usize = pos;
    while i < end
        invariant
            pos <= i <= end,
            end <= text@.len(),
            end - pos <= 8,
            s == symbol_of(text@.subrange(pos as int, i as int)),
            s.wf(),
            s@ == text@.subrange(pos as int, i as int),
        decreases end - i,
    {
        let ghost prev = text@.subrange(pos as int, i as int);
        s.add_char(text[i]);
        i = i + 1;
        proof {
            let cur = text@.subrange(pos as int, i as int);
            assert(cur.drop_last() =~= prev);
            assert(s@ =~= cur);
        }
    }
    proof {
        let t = text@.skip(pos as int);
        let k = if t.len() < 8 {
            t.len() as int
        } else {
            8
        };
        assert(t.take(k) =~= text@.subrange(pos as int, end as int));
        lemma_pack(t.take(k));
    }
    s
}

/// The bytes of a sequence of symbols, one after the other.
pub open spec fn symbols_text(s: Seq<Symbol>) -> Seq<u8>
    decreases s.len(),
{
    if s.len() == 0 {
        Seq::empty()
    } else {
        symbols_text(s.drop_last()) + s.last()@
    }
}

/// Cuts `text` into symbols of eight bytes, the last one holding what is
/// left.
pub fn text_to_symbols(text: &[u8]) -> (r: Vec<Symbol>)
    ensures
        r@.len() == (text@.len() + 7) / 8,
        forall|k: int| 0 <= k < r@.len() ==> #[trigger] r@[k] == window_of(text@.skip(8 * k)),
        forall|k: int| 0 <= k < r@.len() ==> (#[trigger] r@[k]).wf(),
{
    let tl = text.len();
    let n = tl / 8 + if tl % 8 != 0 {
        1
    } else {
        0
    };
    let mut res: Vec<Symbol> = Vec::with_capacity(n);
    let mut k: usize = 0;
    while k < n
        invariant
            n == (text@.len() + 7) / 8,
            tl == text@.len(),
            k <= n,
            res@.len() == k,
            forall|j: int| 0 <= j < k ==> #[trigger] res@[j] == window_of(text@.skip(8 * j)),
            forall|j: int| 0 <= j < k ==> (#[trigger] res@[j]).wf(),
        decreases n - k,
    {
        assert(8 * k < text@.len()) by (nonlinear_arith)
            requires
                k < n,
                n == (text@.len() + 7) / 8,
        ;
        res.push(load_window(text, 8 * k));
        k = k + 1;
    }
    res
}

/// The bytes of `symbols`, one after the other.
pub fn symbols_to_text(symbols: &[Symbol]) -> (r: Vec<u8>)
    requires
        forall|k: int| 0 <= k < symbols@.len() ==> (#[trigger] symbols@[k]).wf(),
    ensures
        r@ == symbols_text(symbols@),
{
    let mut res: Vec<u8> = Vec::new();
    let mut k: usize = 0;
    while k < symbols.len()
        invariant
            k <= symbols@.len(),
            forall|j: int| 0 <= j < symbols@.len() ==> (#[trigger] symbols@[j]).wf(),
            res@ == symbols_text(symbols@.take(k as int)),
        decreases symbols@.len() - k,
    {
        push_symbol(&mut res, &symbols[k]);
        proof {
            assert(symbols@.take(k + 1).drop_last() =~= symbols@.take(k as int));
        }
        k = k + 1;
    }
    proof {
        assert(symbols@.take(k as int) =~= symbols@);
    }
    res
}

/// The bytes of `symbol`.
pub fn symbol_to_text(symbol: &Symbol) -> (r: Vec<u8>)
    requires
        symbol.wf(),
    ensures
        r@ == symbol@,
{
    let mut res: Vec<u8> = Vec::with_capacity(8);
    push_symbol(&mut res, symbol);
    proof {
        assert(Seq::<u8>::empty() + symbol@ =~= symbol@);
    }
    res
}

/// Setting the byte just above the used ones keeps the others and makes that
/// byte `c`.
pub proof fn lemma_add_byte(v: u64, c: u64, s: u64)
    requires
        s <= 56,
        s % 8 == 0,
        v >> s == 0,
        c < 256,
    ensures
        forall|i: int| 0 <= i < s / 8 ==> byte_of(v | (c << s), i) == byte_of(v, i),
        byte_of(v | (c << s), (s / 8) as int) == c as u8,
        s + 8 < 64 ==> (v | (c << s)) >> ((s + 8) as u64) == 0,
{
    let w = v | (c << s);
    assert forall|i: int| 0 <= i < s / 8 implies byte_of(w, i) == byte_of(v, i) by {
        let t = (8 * i) as u64;
        assert(((w >> t) & 0xff) == ((v >> t) & 0xff)) by (bit_vector)
            requires
                t + 8 <= s,
                s < 64,
                w == v | (c << s),
                v >> s == 0,
        ;
    }
    let t = (8 * (s / 8)) as u64;
    assert(t == s);
    assert(((w >> s) & 0xff) == c) by (bit_vector)
        requires
            s <= 56,
            w == v | (c << s),
            v >> s == 0,
            c < 256,
    ;
    if s + 8 < 64 {
        let s8 = (s + 8) as u64;
        assert(w >> s8 == 0) by (bit_vector)
            requires
                s8 == s + 8,
                s8 < 64,
                w == v | (c << s),
                v >> s == 0,
                c < 256,
        ;
    }
}

/// Placing `b` above the `sa` used bits of `a` keeps the bytes of both.
pub proof fn lemma_concat_words(a: u64, b: u64, sa: u64, sb: u64)
    requires
        sa < 64,
        sa % 8 == 0,
        sb % 8 == 0,
        sa + sb <= 64,
        a >> sa == 0,
        sa + sb < 64 ==> b >> sb == 0,
    ensures
        forall|i: int| 0 <= i < sa / 8 ==> byte_of(a | (b << sa), i) == byte_of(a, i),
        forall|i: int| 0 <= i < sb / 8 ==> byte_of(a | (b << sa), sa / 8 + i) == byte_of(b, i),
        sa + sb < 64 ==> (a | (b << sa)) >> ((sa + sb) as u64) == 0,
{
    let w = a | (b << sa);
    assert forall|i: int| 0 <= i < sa / 8 implies byte_of(w, i) == byte_of(a, i) by {
        let t = (8 * i) as u64;
        assert(((w >> t) & 0xff) == ((a >> t) & 0xff)) by (bit_vector)
            requires
                t + 8 <= sa,
                sa < 64,
                w == a | (b << sa),
                a >> sa == 0,
        ;
    }
    assert forall|i: int| 0 <= i < sb / 8 implies byte_of(w, sa / 8 + i) == byte_of(b, i) by {
        let t = (8 * i) as u64;
        let u = (8 * (sa / 8 + i)) as u64;
        assert(u == sa + t);
        assert(((w >> u) & 0xff) == ((b >> t) & 0xff)) by (bit_vector)
            requires
                u == sa + t,
                t + 8 <= sb,
                sa + sb <= 64,
                w == a | (b << sa),
                a >> sa == 0,
        ;
    }
    if sa + sb < 64 {
        let s = (sa + sb) as u64;
        assert(w >> s == 0) by (bit_vector)
            requires
                s == sa + sb,
                s < 64,
                w == a | (b << sa),
                a >> sa == 0,
                b >> sb == 0,
        ;
    }
}

/// A byte of `a ^ b` is zero exactly where the bytes of `a` and `b` agree.
pub proof fn lemma_xor_byte(a: u64, b: u64, i: int)
    requires
        0 <= i < 8,
    ensures
        byte_of(a ^ b, i) == 0 <==> byte_of(a, i) == byte_of(b, i),
{
    let t = (8 * i) as u64;
    assert((((a ^ b) >> t) & 0xff == 0) <==> (((a >> t) & 0xff) == ((b >> t) & 0xff)))
        by (bit_vector)
        requires
            t < 64,
    ;
    assert(((a >> t) & 0xff) < 256 && ((b >> t) & 0xff) < 256 && (((a ^ b) >> t) & 0xff) < 256)
        by (bit_vector);
}

/// Masking the low `k` bytes gives zero exactly when each of them is zero.
pub proof fn lemma_mask_bytes(x: u64, k: nat)
    requires
        k <= 8,
    ensures
        (x & low_mask((8 * k) as u64)) == 0 <==> (forall|i: int|
            0 <= i < k ==> byte_of(x, i) == 0),
    decreases k,
{
    if k == 0 {
        assert((x & 0) == 0) by (bit_vector);
    } else {
        lemma_mask_bytes(x, (k - 1) as nat);
        let s = (8 * (k - 1)) as u64;
        let m1 = low_mask(s);
        let m2 = low_mask((8 * k) as u64);
        assert(((x >> s) & 0xff) < 256) by (bit_vector);
        if s == 0 {
            assert(m2 == u64::MAX >> 56u64);
            assert(((x & (u64::MAX >> 56u64)) == 0) <==> (((x >> 0u64) & 0xff) == 0))
                by (bit_vector);
        } else {
            assert(m1 == u64::MAX >> ((64 - s) as u64));
            assert(m2 == u64::MAX >> ((56 - s) as u64));
            assert(((x & (u64::MAX >> ((56 - s) as u64))) == 0) <==> ((x & (u64::MAX >> ((64
                - s) as u64))) == 0 && ((x >> s) & 0xff) == 0)) by (bit_vector)
                requires
                    8 <= s <= 56,
            ;
        }
        assert(byte_of(x, (k - 1) as int) == ((x >> s) & 0xff) as u8);
        if (x & m2) == 0 {
            assert forall|i: int| 0 <= i < k implies byte_of(x, i) == 0 by {
                if i < k - 1 {
                } else {
                    assert(i == k - 1);
                }
            }
        }
    }
}

/// The byte sequence of a word packed from at most eight bytes.
#[verifier::spinoff_prover]
pub proof fn lemma_pack(s: Seq<u8>)
    requires
        s.len() <= 8,
    ensures
        symbol_of(s).wf(),
        symbol_of(s)@ == s,
    decreases s.len(),
{
    if s.len() == 0 {
        assert(pack(s) == 0);
        assert((0u64 >> 0u64) == 0) by (bit_vector);
        assert(symbol_of(s)@ =~= s);
    } else {
        let p = s.drop_last();
        lemma_pack(p);
        let v = pack(p);
        let c = s.last() as u64;
        let sh = (8 * p.len()) as u64;
        let w = pack(s);
        assert(w == v | (c << sh));
        assert(v >> sh == 0) by {
            if sh == 0 {
                assert(v == 0);
                assert(v >> 0u64 == 0) by (bit_vector)
                    requires
                        v == 0,
                ;
            }
        }
        lemma_add_byte(v, c, sh);
        assert(sh / 8 == p.len());
        assert forall|i: int| 0 <= i < s.len() implies byte_of(w, i) == s[i] by {
            if i < p.len() {
                assert(symbol_of(p)@[i] == p[i]);
            }
        }
        assert(symbol_of(s)@ =~= s);
    }
}

/// The masked heads of a word are in range.
pub proof fn lemma_heads_in_range(v: u64)
    ensures
        v & 0xff < 256,
        v & 0xffff < 65536,
        v & 0xff_ffff < 0x100_0000,
        (v & 0xff) == byte_of(v, 0) as u64,
{
    assert(v & 0xff < 256 && v & 0xffff < 65536 && v & 0xff_ffff < 0x100_0000 && (v & 0xff) == ((v
        >> 0u64) & 0xff)) by (bit_vector);
}

/// Equal masked words agree on their first bytes, and conversely.
pub proof fn lemma_first_bytes(a: u64, b: u64)
    ensures
        ((a & 0xff) == (b & 0xff)) <==> agree_on(a, b, 1),
        ((a & 0xffff) == (b & 0xffff)) <==> agree_on(a, b, 2),
        ((a & 0xff_ffff) == (b & 0xff_ffff)) <==> agree_on(a, b, 3),
{
    assert(((a & 0xff) == (b & 0xff)) <==> (((a >> 0u64) & 0xff) == ((b >> 0u64) & 0xff)))
        by (bit_vector);
    assert(((a & 0xffff) == (b & 0xffff)) <==> (((a >> 0u64) & 0xff) == ((b >> 0u64) & 0xff)
        && ((a >> 8u64) & 0xff) == ((b >> 8u64) & 0xff))) by (bit_vector);
    assert(((a & 0xff_ffff) == (b & 0xff_ffff)) <==> (((a >> 0u64) & 0xff) == ((b >> 0u64)
        & 0xff) && ((a >> 8u64) & 0xff) == ((b >> 8u64) & 0xff) && ((a >> 16u64) & 0xff) == ((b
        >> 16u64) & 0xff))) by (bit_vector);
    assert((a >> 0u64) & 0xff < 256 && (b >> 0u64) & 0xff < 256 && (a >> 8u64) & 0xff < 256 && (b
        >> 8u64) & 0xff < 256 && (a >> 16u64) & 0xff < 256 && (b >> 16u64) & 0xff < 256)
        by (bit_vector);
    assert(byte_of(a, 0) == ((a >> 0u64) & 0xff) as u8);
    assert(byte_of(a, 1) == ((a >> 8u64) & 0xff) as u8);
    assert(byte_of(a, 2) == ((a >> 16u64) & 0xff) as u8);
    assert(byte_of(b, 0) == ((b >> 0u64) & 0xff) as u8);
    assert(byte_of(b, 1) == ((b >> 8u64) & 0xff) as u8);
    assert(byte_of(b, 2) == ((b >> 16u64) & 0xff) as u8);
}

} // verus!
