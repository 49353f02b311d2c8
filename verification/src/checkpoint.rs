//! Minimal binary (de)serialization of a trained model: config, vocabulary,
//! topology, and the dense in/out parameters.
//!
//! The format is the four bytes `CLAI`, followed by little-endian words of 32
//! bits; the seed takes two words, the lower one first.
use vstd::prelude::*;
use vstd::slice::slice_subrange;

use crate::config::{Config, GateMode};
use crate::graph::{is_csr, row_fits, Csr, Topology};
use crate::network::{Model, Network};
use crate::scalar::{bits_of, Single};
use crate::text::{code, code_of, is_scalar_value, lemma_code};

verus! {

pub const VERSION: u32 = 1;

/// Stands for a word that is no character.
pub const REPLACEMENT_CODE: u32 = 0xFFFD;

/// The bytes that a checkpoint starts with.
pub open spec fn magic() -> Seq<u8> {
    seq![67u8, 76u8, 65u8, 73u8]
}

// --- little-endian words ----------------------------------------------------

/// The bytes of a word, the lowest first.
pub open spec fn le_u32(v: u32) -> Seq<u8> {
    seq![
        (v % 256) as u8,
        (v / 256 % 256) as u8,
        (v / 0x1_0000 % 256) as u8,
        (v / 0x100_0000) as u8,
    ]
}

pub open spec fn low_word(v: u64) -> u32 {
    (v % 0x1_0000_0000) as u32
}

pub open spec fn high_word(v: u64) -> u32 {
    (v / 0x1_0000_0000) as u32
}

/// The bytes of a double word, the lowest first.
pub open spec fn le_u64(v: u64) -> Seq<u8> {
    le_u32(low_word(v)) + le_u32(high_word(v))
}

/// The bytes of words, one word after the other.
pub open spec fn le_words(ws: Seq<u32>) -> Seq<u8> {
    Seq::new(4 * ws.len(), |i: int| le_u32(ws[i / 4])[i % 4])
}

/// The word whose bytes start at `at`.
pub open spec fn word_at(bytes: Seq<u8>, at: int) -> u32 {
    (bytes[at] + 256 * bytes[at + 1] + 0x1_0000 * bytes[at + 2] + 0x100_0000 * bytes[at
        + 3]) as u32
}

/// The double word whose lower and upper half are `low` and `high`.
pub open spec fn double_word(low: u32, high: u32) -> u64 {
    (low + 0x1_0000_0000 * high) as u64
}

pub fn put_u32(b: &mut Vec<u8>, v: u32)
    ensures
        final(b)@ == old(b)@ + le_u32(v),
{
    let ghost before = b@;
    b.push((v % 256) as u8);
    b.push((v / 256 % 256) as u8);
    b.push((v / 0x1_0000 % 256) as u8);
    b.push((v / 0x100_0000) as u8);
    assert(b@ =~= before + le_u32(v));
}

pub fn put_u64(b: &mut Vec<u8>, v: u64)
    ensures
        final(b)@ == old(b)@ + le_u64(v),
{
    let ghost before = b@;
    put_u32(b, (v % 0x1_0000_0000) as u32);
    put_u32(b, (v / 0x1_0000_0000) as u32);
    assert(b@ =~= before + le_u64(v));
}

pub fn put_f32(b: &mut Vec<u8>, v: Single)
    ensures
        final(b)@ == old(b)@ + le_u32(v.bits),
{
    put_u32(b, v.bits);
}

pub fn put_u32_slice(b: &mut Vec<u8>, s: &[u32])
    ensures
        final(b)@ == old(b)@ + le_words(s@),
{
    let ghost before = b@;
    let mut i: usize = 0;
    while i < s.len()
        invariant
            i <= s@.len(),
            b@ == before + le_words(s@.take(i as int)),
        decreases s.len() - i,
    {
        put_u32(b, s[i]);
        proof {
            lemma_le_words_push(s@.take(i as int), s@[i as int]);
            assert(s@.take(i + 1) =~= s@.take(i as int).push(s@[i as int]));
        }
        i += 1;
        assert(b@ =~= before + le_words(s@.take(i as int)));
    }
    assert(s@.take(i as int) =~= s@);
}

pub fn put_f32_slice(b: &mut Vec<u8>, s: &[Single])
    ensures
        final(b)@ == old(b)@ + le_words(bits_of(s@)),
{
    let ghost before = b@;
    let ghost ws = bits_of(s@);
    let mut i: usize = 0;
    while i < s.len()
        invariant
            i <= s@.len(),
            ws == bits_of(s@),
            b@ == before + le_words(ws.take(i as int)),
        decreases s.len() - i,
    {
        put_f32(b, s[i]);
        proof {
            lemma_le_words_push(ws.take(i as int), ws[i as int]);
            assert(ws.take(i + 1) =~= ws.take(i as int).push(ws[i as int]));
        }
        i += 1;
        assert(b@ =~= before + le_words(ws.take(i as int)));
    }
    assert(ws.take(i as int) =~= ws);
}

proof fn lemma_le_words_push(ws: Seq<u32>, w: u32)
    ensures
        le_words(ws.push(w)) == le_words(ws) + le_u32(w),
{
    assert(le_words(ws.push(w)) =~= le_words(ws) + le_u32(w));
}

proof fn lemma_le_words_add(a: Seq<u32>, b: Seq<u32>)
    ensures
        le_words(a + b) == le_words(a) + le_words(b),
{
    assert forall|i: int| 0 <= i < 4 * (a.len() + b.len()) implies #[trigger] le_words(a + b)[i]
        == (le_words(a) + le_words(b))[i] by {
        if i >= 4 * a.len() {
            let j = i - 4 * a.len();
            assert(i / 4 == a.len() + j / 4);
            assert(i % 4 == j % 4);
        }
    }
    assert(le_words(a + b) =~= le_words(a) + le_words(b));
}

/// Reading a word gives back what writing it wrote.
pub proof fn law_word_roundtrip(v: u32)
    ensures
        le_u32(v).len() == 4,
        word_at(le_u32(v), 0) == v,
{
}

/// Reading a double word gives back what writing it wrote.
pub proof fn law_double_word_roundtrip(v: u64)
    ensures
        le_u64(v).len() == 8,
        double_word(word_at(le_u64(v), 0), word_at(le_u64(v), 4)) == v,
{
    law_word_roundtrip(low_word(v));
    law_word_roundtrip(high_word(v));
    let b = le_u64(v);
    assert(b[0] == le_u32(low_word(v))[0] && b[1] == le_u32(low_word(v))[1] && b[2] == le_u32(
        low_word(v),
    )[2] && b[3] == le_u32(low_word(v))[3]);
    assert(b[4] == le_u32(high_word(v))[0] && b[5] == le_u32(high_word(v))[1] && b[6] == le_u32(
        high_word(v),
    )[2] && b[7] == le_u32(high_word(v))[3]);
}

// --- reading ----------------------------------------------------------------

/// A place in a buffer.
pub struct Reader<'a> {
    pub buf: &'a [u8],
    pub pos: usize,
}

impl<'a> Reader<'a> {
    /// `n` more bytes can be read.
    pub open spec fn has(self, n: int) -> bool {
        self.pos + n <= self.buf@.len()
    }

    pub fn take(&mut self, n: usize) -> (r: &'a [u8])
        requires
            old(self).has(n as int),
        ensures
            final(self).buf == old(self).buf,
            final(self).pos == old(self).pos + n,
            r@ == old(self).buf@.subrange(old(self).pos as int, old(self).pos + n),
    {
        assert(self.buf@.len() == self.buf.len());
        let s = slice_subrange(self.buf, self.pos, self.pos + n);
        self.pos += n;
        s
    }

    pub fn u32(&mut self) -> (r: u32)
        requires
            old(self).has(4),
        ensures
            final(self).buf == old(self).buf,
            final(self).pos == old(self).pos + 4,
            r == word_at(old(self).buf@, old(self).pos as int),
    {
        let s = self.take(4);
        s[0] as u32 + 256 * s[1] as u32 + 0x1_0000 * s[2] as u32 + 0x100_0000 * s[3] as u32
    }

    pub fn u64(&mut self) -> (r: u64)
        requires
            old(self).has(8),
        ensures
            final(self).buf == old(self).buf,
            final(self).pos == old(self).pos + 8,
            r == double_word(
                word_at(old(self).buf@, old(self).pos as int),
                word_at(old(self).buf@, old(self).pos + 4),
            ),
    {
        let low: u32 = self.u32();
        let high: u32 = self.u32();
        low as u64 + 0x1_0000_0000 * high as u64
    }

    /// A number, by its bit pattern.
    pub fn single(&mut self) -> (r: Single)
        requires
            old(self).has(4),
        ensures
            final(self).buf == old(self).buf,
            final(self).pos == old(self).pos + 4,
            r.bits == word_at(old(self).buf@, old(self).pos as int),
    {
        Single { bits: self.u32() }
    }

    pub fn u32_vec(&mut self, n: usize) -> (r: Vec<u32>)
        requires
            old(self).has(4 * n),
        ensures
            final(self).buf == old(self).buf,
            final(self).pos == old(self).pos + 4 * n,
            r@ == Seq::new(
                n as nat,
                |i: int| word_at(old(self).buf@, old(self).pos + 4 * i),
            ),
    {
        let ghost start = self.pos;
        let ghost bytes = self.buf@;
        let mut r: Vec<u32> = Vec::new();
        let mut i: usize = 0;
        while i < n
            invariant
                i <= n,
                self.buf == old(self).buf,
                bytes == self.buf@,
                start + 4 * n <= bytes.len(),
                self.pos == start + 4 * i,
                r@ == Seq::new(i as nat, |q: int| word_at(bytes, start + 4 * q)),
            decreases n - i,
        {
            r.push(self.u32());
            i += 1;
            assert(r@ =~= Seq::new(i as nat, |q: int| word_at(bytes, start + 4 * q)));
        }
        r
    }

    pub fn f32_vec(&mut self, n: usize) -> (r: Vec<Single>)
        requires
            old(self).has(4 * n),
        ensures
            final(self).buf == old(self).buf,
            final(self).pos == old(self).pos + 4 * n,
            r@ == Seq::new(
                n as nat,
                |i: int| (Single { bits: word_at(old(self).buf@, old(self).pos + 4 * i) }),
            ),
    {
        let ghost start = self.pos;
        let ghost bytes = self.buf@;
        let mut r: Vec<Single> = Vec::new();
        let mut i: usize = 0;
        while i < n
            invariant
                i <= n,
                self.buf == old(self).buf,
                bytes == self.buf@,
                start + 4 * n <= bytes.len(),
                self.pos == start + 4 * i,
                r@ == Seq::new(i as nat, |q: int| (Single { bits: word_at(bytes, start + 4 * q) })),
            decreases n - i,
        {
            r.push(self.single());
            i += 1;
            assert(r@ =~= Seq::new(
                i as nat,
                |q: int| (Single { bits: word_at(bytes, start + 4 * q) }),
            ));
        }
        r
    }
}

// --- what a checkpoint holds ------------------------------------------------

/// How many words come before the vocabulary.
pub const HEADER_WORDS: usize = 23;

pub open spec fn flag(set: bool) -> u32 {
    if set {
        1
    } else {
        0
    }
}

/// The words of a configuration.
pub open spec fn config_words(c: Config) -> Seq<u32> {
    seq![
        c.n as u32,
        c.k as u32,
        c.n_in as u32,
        c.n_out as u32,
        c.window as u32,
        c.rigl_interval as u32,
        c.rigl_candidates as u32,
        c.rigl_decay_steps as u32,
        c.theta.bits,
        c.beta.bits,
        c.spectral_radius.bits,
        c.lr.bits,
        c.adam_beta1.bits,
        c.adam_beta2.bits,
        c.adam_eps.bits,
        c.grad_clip.bits,
        c.rigl_fraction.bits,
        flag(c.gate == GateMode::Hard),
        flag(c.rigl_enabled),
        low_word(c.seed),
        high_word(c.seed),
    ]
}

/// The scalar values of characters.
pub open spec fn codes(chars: Seq<char>) -> Seq<u32> {
    Seq::new(chars.len(), |i: int| code(chars[i]))
}

/// The words of a checkpoint.
pub open spec fn model_words(model: Model, chars: Seq<char>) -> Seq<u32> {
    seq![VERSION] + config_words(model.cfg) + seq![chars.len() as u32] + codes(chars)
        + seq![model.graph.edges() as u32] + model.graph.row_ptr + model.graph.col_idx + bits_of(
        model.graph.weights,
    ) + bits_of(model.embed) + bits_of(model.readout) + bits_of(model.bias_out)
}

/// The bytes of a checkpoint.
pub open spec fn saved(model: Model, chars: Seq<char>) -> Seq<u8> {
    magic() + le_words(model_words(model, chars))
}

/// Why bytes are no checkpoint.
#[derive(Clone, Copy, Debug, PartialEq, Eq, Structural)]
pub enum LoadError {
    /// They do not start as a checkpoint does.
    BadMagic,
    /// They end too early.
    Truncated,
    /// A row reaches past the last edge, or an edge past the last neuron.
    BadTopology,
}

/// The words that follow the first four bytes.
pub open spec fn words_in(bytes: Seq<u8>) -> Seq<u32> {
    Seq::new(((bytes.len() - 4) / 4) as nat, |i: int| word_at(bytes, 4 + 4 * i))
}

/// The numbers whose bit patterns are `ws`.
pub open spec fn singles(ws: Seq<u32>) -> Seq<Single> {
    Seq::new(ws.len(), |i: int| (Single { bits: ws[i] }))
}

/// The character of scalar value `w`, or the replacement character.
pub open spec fn char_of(w: u32) -> char {
    if is_scalar_value(w) {
        w as char
    } else {
        REPLACEMENT_CODE as char
    }
}

/// Where the parts of a checkpoint start, in words.
pub struct Layout {
    pub vocab: int,
    pub edges: int,
    pub rows: int,
    pub cols: int,
    pub weights: int,
    pub embed: int,
    pub readout: int,
    pub bias: int,
    pub end: int,
}

/// The layout of a checkpoint of the words `ws`.
pub open spec fn layout(ws: Seq<u32>) -> Layout {
    let n = ws[1] as int;
    let vocab = ws[22] as int;
    let edges = ws[HEADER_WORDS + vocab] as int;
    let rows = HEADER_WORDS + vocab + 1;
    let cols = rows + n + 1;
    let weights = cols + edges;
    let embed = weights + edges;
    let readout = embed + vocab * ws[3];
    let bias = readout + ws[4] * vocab;
    Layout { vocab, edges, rows, cols, weights, embed, readout, bias, end: bias + vocab }
}

/// The configuration in a checkpoint of the words `ws`.
pub open spec fn config_in(ws: Seq<u32>) -> Config {
    Config {
        n: ws[1] as usize,
        k: ws[2] as usize,
        n_in: ws[3] as usize,
        n_out: ws[4] as usize,
        window: ws[5] as usize,
        rigl_interval: ws[6] as usize,
        rigl_candidates: ws[7] as usize,
        rigl_decay_steps: ws[8] as usize,
        theta: Single { bits: ws[9] },
        beta: Single { bits: ws[10] },
        spectral_radius: Single { bits: ws[11] },
        lr: Single { bits: ws[12] },
        adam_beta1: Single { bits: ws[13] },
        adam_beta2: Single { bits: ws[14] },
        adam_eps: Single { bits: ws[15] },
        grad_clip: Single { bits: ws[16] },
        rigl_fraction: Single { bits: ws[17] },
        gate: if ws[18] == 1 {
            GateMode::Hard
        } else {
            GateMode::Soft
        },
        rigl_enabled: ws[19] == 1,
        seed: double_word(ws[20], ws[21]),
    }
}

/// The network in a checkpoint of the words `ws`.
pub open spec fn model_in(ws: Seq<u32>) -> Model {
    let l = layout(ws);
    Model {
        cfg: config_in(ws),
        graph: Csr {
            n: ws[1] as int,
            row_ptr: ws.subrange(l.rows, l.cols),
            col_idx: ws.subrange(l.cols, l.weights),
            weights: singles(ws.subrange(l.weights, l.embed)),
        },
        embed: singles(ws.subrange(l.embed, l.readout)),
        readout: singles(ws.subrange(l.readout, l.bias)),
        bias_out: singles(ws.subrange(l.bias, l.end)),
        vocab: l.vocab,
    }
}

/// The vocabulary in a checkpoint of the words `ws`.
pub open spec fn chars_in(ws: Seq<u32>) -> Seq<char> {
    Seq::new(layout(ws).vocab as nat, |i: int| char_of(ws[HEADER_WORDS + i]))
}

/// All the words of a checkpoint are there.
pub open spec fn is_complete(ws: Seq<u32>) -> bool {
    &&& HEADER_WORDS <= ws.len()
    &&& layout(ws).rows <= ws.len()
    &&& layout(ws).end <= ws.len()
}

/// What bytes hold as a checkpoint. Bytes beyond its end are ignored.
pub open spec fn loaded(bytes: Seq<u8>) -> Result<(Model, Seq<char>), LoadError> {
    let ws = words_in(bytes);
    if bytes.len() < 4 {
        Err(LoadError::Truncated)
    } else if bytes.take(4) != magic() {
        Err(LoadError::BadMagic)
    } else if !is_complete(ws) {
        Err(LoadError::Truncated)
    } else if !is_csr(ws[1] as nat, model_in(ws).graph.row_ptr, model_in(ws).graph.col_idx) {
        Err(LoadError::BadTopology)
    } else {
        Ok((model_in(ws), chars_in(ws)))
    }
}

// --- saving -----------------------------------------------------------------

/// Words written after words.
proof fn lemma_appended(ws: Seq<u32>, more: Seq<u32>)
    ensures
        magic() + le_words(ws) + le_words(more) == magic() + le_words(ws + more),
{
    lemma_le_words_add(ws, more);
    assert(magic() + le_words(ws) + le_words(more) =~= magic() + le_words(ws + more));
}

proof fn lemma_one_word(w: u32)
    ensures
        le_words(seq![w]) == le_u32(w),
{
    assert(le_words(seq![w]) =~= le_u32(w));
}

/// The words of a configuration, but for the seed.
fn words_of_config(c: &Config) -> (r: Vec<u32>)
    ensures
        r@ + seq![low_word(c.seed), high_word(c.seed)] == config_words(*c),
{
    let hard: u32 = match c.gate {
        GateMode::Hard => 1,
        GateMode::Soft => 0,
    };
    let enabled: u32 = if c.rigl_enabled {
        1
    } else {
        0
    };
    let r: Vec<u32> = vec![
        c.n as u32,
        c.k as u32,
        c.n_in as u32,
        c.n_out as u32,
        c.window as u32,
        c.rigl_interval as u32,
        c.rigl_candidates as u32,
        c.rigl_decay_steps as u32,
        c.theta.bits,
        c.beta.bits,
        c.spectral_radius.bits,
        c.lr.bits,
        c.adam_beta1.bits,
        c.adam_beta2.bits,
        c.adam_eps.bits,
        c.grad_clip.bits,
        c.rigl_fraction.bits,
        hard,
        enabled,
    ];
    assert(r@ + seq![low_word(c.seed), high_word(c.seed)] =~= config_words(*c));
    r
}

/// The scalar values of characters.
fn codes_of(chars: &[char]) -> (r: Vec<u32>)
    ensures
        r@ == codes(chars@),
{
    let mut r: Vec<u32> = Vec::new();
    let mut i: usize = 0;
    while i < chars.len()
        invariant
            i <= chars@.len(),
            r@ == Seq::new(i as nat, |q: int| code(chars@[q])),
        decreases chars.len() - i,
    {
        r.push(code_of(chars[i]));
        i += 1;
        assert(r@ =~= Seq::new(i as nat, |q: int| code(chars@[q])));
    }
    assert(r@ =~= codes(chars@));
    r
}

/// The checkpoint of a network and its vocabulary.
pub fn save(net: &Network, id_to_char: &[char]) -> (buf: Vec<u8>)
    ensures
        buf@ == saved(net@, id_to_char@),
{
    let mut buf: Vec<u8> = vec![67u8, 76u8, 65u8, 73u8];
    let ghost mut ws: Seq<u32> = Seq::empty();
    assert(buf@ =~= magic() + le_words(ws));
    put_u32(&mut buf, VERSION);
    proof {
        lemma_one_word(VERSION);
        lemma_appended(ws, seq![VERSION]);
        ws = ws + seq![VERSION];
    }
    let c = &net.cfg;
    let scalars = words_of_config(c);
    put_u32_slice(&mut buf, scalars.as_slice());
    put_u64(&mut buf, c.seed);
    proof {
        let seed = seq![low_word(c.seed), high_word(c.seed)];
        assert(le_words(seed) =~= le_u64(c.seed));
        lemma_appended(ws, scalars@);
        lemma_appended(ws + scalars@, seed);
        assert(ws + scalars@ + seed =~= ws + config_words(*c));
        ws = ws + config_words(*c);
    }
    put_u32(&mut buf, id_to_char.len() as u32);
    let chars = codes_of(id_to_char);
    put_u32_slice(&mut buf, chars.as_slice());
    proof {
        let len = id_to_char@.len() as u32;
        lemma_one_word(len);
        lemma_appended(ws, seq![len]);
        lemma_appended(ws + seq![len], chars@);
        ws = ws + seq![len] + chars@;
    }
    put_u32(&mut buf, net.topo.num_edges() as u32);
    put_u32_slice(&mut buf, net.topo.row_ptr.as_slice());
    put_u32_slice(&mut buf, net.topo.col_idx.as_slice());
    put_f32_slice(&mut buf, net.topo.weights.as_slice());
    proof {
        let edges = seq![net@.graph.edges() as u32];
        lemma_one_word(net@.graph.edges() as u32);
        lemma_appended(ws, edges);
        ws = ws + edges;
        lemma_appended(ws, net.topo.row_ptr@);
        ws = ws + net.topo.row_ptr@;
        lemma_appended(ws, net.topo.col_idx@);
        ws = ws + net.topo.col_idx@;
        lemma_appended(ws, bits_of(net.topo.weights@));
        ws = ws + bits_of(net.topo.weights@);
    }
    put_f32_slice(&mut buf, net.embed.as_slice());
    put_f32_slice(&mut buf, net.readout.as_slice());
    put_f32_slice(&mut buf, net.bias_out.as_slice());
    proof {
        lemma_appended(ws, bits_of(net.embed@));
        ws = ws + bits_of(net.embed@);
        lemma_appended(ws, bits_of(net.readout@));
        ws = ws + bits_of(net.readout@);
        lemma_appended(ws, bits_of(net.bias_out@));
        ws = ws + bits_of(net.bias_out@);
        assert(ws =~= model_words(net@, id_to_char@));
    }
    buf
}

// --- loading ----------------------------------------------------------------

/// Whether the arrays can be read as out-edge lists of `n` neurons.
fn check_csr(n: usize, row_ptr: &Vec<u32>, col_idx: &Vec<u32>) -> (r: bool)
    requires
        row_ptr@.len() == n + 1,
    ensures
        r == is_csr(n as nat, row_ptr@, col_idx@),
{
    let edges = col_idx.len();
    assert(n < row_ptr.len());
    let mut i: usize = 0;
    while i < n
        invariant
            i <= n,
            row_ptr@.len() == n + 1,
            edges == col_idx@.len(),
            n < usize::MAX,
            forall|q: int| 0 <= q < i ==> #[trigger] row_fits(row_ptr@, edges as nat, q),
        decreases n - i,
    {
        if row_ptr[i] < row_ptr[i + 1] && row_ptr[i + 1] as usize > edges {
            assert(!row_fits(row_ptr@, edges as nat, i as int));
            return false;
        }
        i += 1;
    }
    let mut e: usize = 0;
    while e < edges
        invariant
            e <= edges,
            edges == col_idx@.len(),
            forall|q: int| 0 <= q < e ==> #[trigger] col_idx@[q] < n,
        decreases edges - e,
    {
        if col_idx[e] as usize >= n {
            return false;
        }
        e += 1;
    }
    true
}

/// The configuration at the reader's place.
fn read_config(r: &mut Reader) -> (c: Config)
    requires
        old(r).pos == 8,
        4 <= old(r).buf@.len(),
        HEADER_WORDS <= words_in(old(r).buf@).len(),
    ensures
        final(r).buf == old(r).buf,
        final(r).pos == 92,
        c == config_in(words_in(old(r).buf@)),
{
    let n = r.u32() as usize;
    let k = r.u32() as usize;
    let n_in = r.u32() as usize;
    let n_out = r.u32() as usize;
    let window = r.u32() as usize;
    let rigl_interval = r.u32() as usize;
    let rigl_candidates = r.u32() as usize;
    let rigl_decay_steps = r.u32() as usize;
    let theta = r.single();
    let beta = r.single();
    let spectral_radius = r.single();
    let lr = r.single();
    let adam_beta1 = r.single();
    let adam_beta2 = r.single();
    let adam_eps = r.single();
    let grad_clip = r.single();
    let rigl_fraction = r.single();
    let gate = if r.u32() == 1 {
        GateMode::Hard
    } else {
        GateMode::Soft
    };
    let rigl_enabled = r.u32() == 1;
    let seed = r.u64();
    Config {
        n,
        k,
        n_in,
        n_out,
        window,
        theta,
        beta,
        gate,
        spectral_radius,
        lr,
        adam_beta1,
        adam_beta2,
        adam_eps,
        grad_clip,
        rigl_interval,
        rigl_fraction,
        rigl_candidates,
        rigl_decay_steps,
        rigl_enabled,
        seed,
    }
}

/// `n` characters at the reader's place.
fn read_chars(r: &mut Reader, n: usize) -> (chars: Vec<char>)
    requires
        old(r).has(4 * n),
    ensures
        final(r).buf == old(r).buf,
        final(r).pos == old(r).pos + 4 * n,
        chars@ == Seq::new(
            n as nat,
            |i: int| char_of(word_at(old(r).buf@, old(r).pos + 4 * i)),
        ),
{
    let ghost start = r.pos;
    let ghost bytes = r.buf@;
    let mut chars: Vec<char> = Vec::new();
    let mut i: usize = 0;
    while i < n
        invariant
            i <= n,
            r.buf == old(r).buf,
            bytes == r.buf@,
            start + 4 * n <= bytes.len(),
            r.pos == start + 4 * i,
            chars@ == Seq::new(i as nat, |q: int| char_of(word_at(bytes, start + 4 * q))),
        decreases n - i,
    {
        let w: u32 = r.u32();
        let c = match char::from_u32(w) {
            Some(c) => {
                proof {
                    lemma_code(c);
                }
                c
            },
            None => '\u{FFFD}',
        };
        assert(c == char_of(w));
        chars.push(c);
        i += 1;
        assert(chars@ =~= Seq::new(i as nat, |q: int| char_of(word_at(bytes, start + 4 * q))));
    }
    chars
}

/// The words from `at` on, as a reader meets them.
proof fn lemma_words(bytes: Seq<u8>, at: int, n: int)
    requires
        0 <= at,
        0 <= n,
        at + n <= words_in(bytes).len(),
    ensures
        Seq::new(n as nat, |i: int| word_at(bytes, 4 + 4 * at + 4 * i)) == words_in(bytes).subrange(
            at,
            at + n,
        ),
        Seq::new(
            n as nat,
            |i: int| (Single { bits: word_at(bytes, 4 + 4 * at + 4 * i) }),
        ) == singles(words_in(bytes).subrange(at, at + n)),
{
    assert forall|i: int| 0 <= i < n implies #[trigger] word_at(bytes, 4 + 4 * at + 4 * i)
        == words_in(bytes)[at + i] by {
        assert(4 + 4 * (at + i) == 4 + 4 * at + 4 * i);
    }
    assert(Seq::new(n as nat, |i: int| word_at(bytes, 4 + 4 * at + 4 * i)) =~= words_in(
        bytes,
    ).subrange(at, at + n));
    assert(Seq::new(n as nat, |i: int| (Single { bits: word_at(bytes, 4 + 4 * at + 4 * i) }))
        =~= singles(words_in(bytes).subrange(at, at + n)));
}

/// Whether the words are there that follow the number of edges.
fn has_body(
    words: usize,
    cfg: &Config,
    vocab: usize,
    n_edges: usize,
    Ghost(ws): Ghost<Seq<u32>>,
) -> (r: bool)
    requires
        words == ws.len(),
        HEADER_WORDS + vocab < words,
        *cfg == config_in(ws),
        vocab == layout(ws).vocab,
        n_edges == layout(ws).edges,
    ensures
        r == is_complete(ws),
{
    let ghost l = layout(ws);
    assert(cfg.n == ws[1] && cfg.n_in == ws[3] && cfg.n_out == ws[4]);
    proof {
        lemma_table_fits(vocab as int, cfg.n_in as int);
        lemma_table_fits(cfg.n_out as int, vocab as int);
    }
    let embed_len: u128 = vocab as u128 * cfg.n_in as u128;
    let readout_len: u128 = cfg.n_out as u128 * vocab as u128;
    let need: u128 = 1 + cfg.n as u128 + 2 * (n_edges as u128) + embed_len + readout_len
        + vocab as u128;
    assert(need == l.end - l.rows);
    let left: u128 = (words - HEADER_WORDS - 1 - vocab) as u128;
    left >= need
}

/// The network at the reader's place, behind the number of edges.
fn read_body(r: &mut Reader, cfg: Config, vocab: usize, n_edges: usize) -> (net: Option<Network>)
    requires
        4 <= old(r).buf@.len(),
        is_complete(words_in(old(r).buf@)),
        cfg == config_in(words_in(old(r).buf@)),
        vocab == layout(words_in(old(r).buf@)).vocab,
        n_edges == layout(words_in(old(r).buf@)).edges,
        old(r).pos == 4 + 4 * layout(words_in(old(r).buf@)).rows,
    ensures
        ({
            let m = model_in(words_in(old(r).buf@));
            match net {
                Some(net) => net@ == m && is_csr(cfg.n as nat, m.graph.row_ptr, m.graph.col_idx)
                    && net.topo.wf() && (cfg.n_in <= cfg.n && cfg.n_out <= cfg.n ==> net.wf()),
                None => !is_csr(cfg.n as nat, m.graph.row_ptr, m.graph.col_idx),
            }
        }),
{
    let ghost bytes = r.buf@;
    let ghost ws = words_in(bytes);
    let ghost l = layout(ws);
    let n = cfg.n;
    assert(n == ws[1] && cfg.n_in == ws[3] && cfg.n_out == ws[4]);
    assert(bytes.len() == r.buf.len());
    proof {
        lemma_table_fits(vocab as int, cfg.n_in as int);
        lemma_table_fits(cfg.n_out as int, vocab as int);
        lemma_words(bytes, l.rows, n + 1);
        lemma_words(bytes, l.cols, n_edges as int);
        lemma_words(bytes, l.weights, n_edges as int);
        lemma_words(bytes, l.embed, vocab * cfg.n_in);
        lemma_words(bytes, l.readout, cfg.n_out * vocab);
        lemma_words(bytes, l.bias, vocab as int);
    }
    let ghost m = model_in(ws);
    let row_ptr = r.u32_vec(n + 1);
    assert(row_ptr@ == m.graph.row_ptr);
    let col_idx = r.u32_vec(n_edges);
    assert(col_idx@ == m.graph.col_idx);
    let weights = r.f32_vec(n_edges);
    assert(weights@ == m.graph.weights);
    let embed = r.f32_vec(vocab * cfg.n_in);
    assert(embed@ == m.embed);
    let readout = r.f32_vec(cfg.n_out * vocab);
    assert(readout@ == m.readout);
    let bias_out = r.f32_vec(vocab);
    assert(bias_out@ == m.bias_out);
    if !check_csr(n, &row_ptr, &col_idx) {
        return None;
    }
    let topo = Topology::from_csr(n, row_ptr, col_idx, weights);
    let net = Network { cfg, topo, embed, readout, bias_out, vocab };
    assert(net@ =~= m);
    Some(net)
}

/// Whether bytes start as a checkpoint does.
fn has_magic(start: &[u8]) -> (r: bool)
    requires
        start@.len() == 4,
    ensures
        r == (start@ == magic()),
{
    let r = start[0] == 67 && start[1] == 76 && start[2] == 65 && start[3] == 73;
    assert(r ==> start@ =~= magic());
    r
}

/// The network and the vocabulary that a checkpoint holds.
pub fn load(buf: &[u8]) -> (r: Result<(Network, Vec<char>), LoadError>)
    ensures
        match r {
            Ok((net, chars)) => loaded(buf@) == Ok::<(Model, Seq<char>), LoadError>((net@, chars@)),
            Err(e) => loaded(buf@) == Err::<(Model, Seq<char>), LoadError>(e),
        },
        r matches Ok((net, chars)) ==> net.topo.wf() && (net.cfg.n_in <= net.cfg.n
            && net.cfg.n_out <= net.cfg.n ==> net.wf()),
{
    let ghost bytes = buf@;
    let ghost ws = words_in(bytes);
    assert(buf.len() == bytes.len());
    if buf.len() < 4 {
        return Err(LoadError::Truncated);
    }
    let mut r = Reader { buf, pos: 0 };
    let start = r.take(4);
    assert(start@ =~= bytes.take(4));
    if !has_magic(start) {
        return Err(LoadError::BadMagic);
    }
    let words: usize = (buf.len() - 4) / 4;
    if words < HEADER_WORDS {
        return Err(LoadError::Truncated);
    }
    let _version = r.u32();
    let cfg = read_config(&mut r);
    let vocab = r.u32() as usize;
    assert(vocab == layout(ws).vocab);
    if words - HEADER_WORDS <= vocab {
        return Err(LoadError::Truncated);
    }
    let id_to_char = read_chars(&mut r, vocab);
    assert(id_to_char@ =~= chars_in(ws));
    let n_edges = r.u32() as usize;
    assert(n_edges == layout(ws).edges);
    if !has_body(words, &cfg, vocab, n_edges, Ghost(ws)) {
        return Err(LoadError::Truncated);
    }
    match read_body(&mut r, cfg, vocab, n_edges) {
        Some(net) => Ok((net, id_to_char)),
        None => Err(LoadError::BadTopology),
    }
}

/// The cells of a table of 32-bit sizes can be counted in 64 bits.
proof fn lemma_table_fits(rows: int, cols: int)
    requires
        0 <= rows <= u32::MAX,
        0 <= cols <= u32::MAX,
    ensures
        0 <= rows * cols <= u64::MAX,
{
    assert(0 <= rows * cols <= u64::MAX) by (nonlinear_arith)
        requires
            0 <= rows <= 0xffff_ffff,
            0 <= cols <= 0xffff_ffff,
    ;
}

// --- what saving and loading keep -------------------------------------------

/// Sizes fit in 32 bits and agree with the configuration.
pub open spec fn is_savable(model: Model, chars: Seq<char>) -> bool {
    let c = model.cfg;
    &&& c.n <= u32::MAX
    &&& c.k <= u32::MAX
    &&& c.n_in <= u32::MAX
    &&& c.n_out <= u32::MAX
    &&& c.window <= u32::MAX
    &&& c.rigl_interval <= u32::MAX
    &&& c.rigl_candidates <= u32::MAX
    &&& c.rigl_decay_steps <= u32::MAX
    &&& chars.len() == model.vocab
    &&& model.vocab <= u32::MAX
    &&& model.graph.edges() <= u32::MAX
    &&& model.graph.n == c.n
    &&& model.graph.row_ptr.len() == c.n + 1
    &&& model.graph.weights.len() == model.graph.edges()
    &&& is_csr(c.n as nat, model.graph.row_ptr, model.graph.col_idx)
    &&& model.embed.len() == model.vocab * c.n_in
    &&& model.readout.len() == c.n_out * model.vocab
    &&& model.bias_out.len() == model.vocab
}

/// The words of a checkpoint, read back from its bytes.
proof fn lemma_words_of_saved(ws: Seq<u32>, extra: Seq<u8>)
    ensures
        ({
            let bytes = magic() + le_words(ws) + extra;
            &&& bytes.len() >= 4
            &&& bytes.take(4) == magic()
            &&& words_in(bytes).len() >= ws.len()
            &&& forall|i: int| 0 <= i < ws.len() ==> #[trigger] words_in(bytes)[i] == ws[i]
        }),
{
    let bytes = magic() + le_words(ws) + extra;
    assert(bytes.take(4) =~= magic());
    assert forall|i: int| 0 <= i < ws.len() implies #[trigger] words_in(bytes)[i] == ws[i] by {
        let b = le_words(ws);
        assert(b[4 * i] == le_u32(ws[i])[0]);
        assert(b[4 * i + 1] == le_u32(ws[i])[1]);
        assert(b[4 * i + 2] == le_u32(ws[i])[2]);
        assert(b[4 * i + 3] == le_u32(ws[i])[3]);
        law_word_roundtrip(ws[i]);
    }
}

/// The first `k` of `parts`, one after the other.
spec fn joined(parts: Seq<Seq<u32>>, k: int) -> Seq<u32>
    decreases k,
{
    if k <= 0 {
        Seq::empty()
    } else {
        joined(parts, k - 1) + parts[k - 1]
    }
}

/// Part `k` stands behind those before it.
proof fn lemma_joined(parts: Seq<Seq<u32>>, k: int, m: int)
    requires
        0 <= k < m,
    ensures
        joined(parts, k).len() + parts[k].len() <= joined(parts, m).len(),
        joined(parts, m).subrange(
            joined(parts, k).len() as int,
            (joined(parts, k).len() + parts[k].len()) as int,
        ) == parts[k],
    decreases m,
{
    let at = joined(parts, k).len() as int;
    let end = (at + parts[k].len()) as int;
    if k < m - 1 {
        lemma_joined(parts, k, m - 1);
        assert(joined(parts, m).subrange(at, end) =~= joined(parts, m - 1).subrange(at, end));
    } else {
        assert(joined(parts, m).subrange(at, end) =~= parts[k]);
    }
}

/// The parts that the words of a checkpoint consist of.
spec fn model_parts(model: Model, chars: Seq<char>) -> Seq<Seq<u32>> {
    seq![
        seq![VERSION],
        config_words(model.cfg),
        seq![chars.len() as u32],
        codes(chars),
        seq![model.graph.edges() as u32],
        model.graph.row_ptr,
        model.graph.col_idx,
        bits_of(model.graph.weights),
        bits_of(model.embed),
        bits_of(model.readout),
        bits_of(model.bias_out),
    ]
}

/// Where the parts end.
proof fn lemma_ends(parts: Seq<Seq<u32>>)
    requires
        parts.len() == 11,
    ensures
        joined(parts, 1).len() == parts[0].len(),
        joined(parts, 2).len() == joined(parts, 1).len() + parts[1].len(),
        joined(parts, 3).len() == joined(parts, 2).len() + parts[2].len(),
        joined(parts, 4).len() == joined(parts, 3).len() + parts[3].len(),
        joined(parts, 5).len() == joined(parts, 4).len() + parts[4].len(),
        joined(parts, 6).len() == joined(parts, 5).len() + parts[5].len(),
        joined(parts, 7).len() == joined(parts, 6).len() + parts[6].len(),
        joined(parts, 8).len() == joined(parts, 7).len() + parts[7].len(),
        joined(parts, 9).len() == joined(parts, 8).len() + parts[8].len(),
        joined(parts, 10).len() == joined(parts, 9).len() + parts[9].len(),
        joined(parts, 11).len() == joined(parts, 10).len() + parts[10].len(),
        joined(parts, 11) == parts[0] + parts[1] + parts[2] + parts[3] + parts[4] + parts[5]
            + parts[6] + parts[7] + parts[8] + parts[9] + parts[10],
{
    assert(joined(parts, 0) == Seq::<u32>::empty());
    assert(joined(parts, 1) =~= parts[0]);
}

/// The parts agree about their sizes.
spec fn have_sizes(parts: Seq<Seq<u32>>) -> bool {
    &&& parts.len() == 11
    &&& parts[0].len() == 1
    &&& parts[1].len() == 21
    &&& parts[2].len() == 1
    &&& parts[2][0] == parts[3].len()
    &&& parts[4].len() == 1
    &&& parts[4][0] == parts[6].len()
    &&& parts[5].len() == parts[1][0] + 1
    &&& parts[7].len() == parts[6].len()
    &&& parts[8].len() == parts[3].len() * parts[1][2]
    &&& parts[9].len() == parts[1][3] * parts[3].len()
    &&& parts[10].len() == parts[3].len()
}

/// The words that say where the parts stand.
proof fn lemma_layout(parts: Seq<Seq<u32>>)
    requires
        have_sizes(parts),
    ensures
        ({
            let l = layout(joined(parts, 11));
            &&& l.vocab == parts[3].len()
            &&& l.edges == parts[6].len()
            &&& l.rows == joined(parts, 5).len()
            &&& l.cols == joined(parts, 6).len()
            &&& l.weights == joined(parts, 7).len()
            &&& l.embed == joined(parts, 8).len()
            &&& l.readout == joined(parts, 9).len()
            &&& l.bias == joined(parts, 10).len()
            &&& l.end == joined(parts, 11).len()
            &&& joined(parts, 1).len() == 1
            &&& joined(parts, 2).len() == 22
            &&& joined(parts, 3).len() == HEADER_WORDS
        }),
{
    let ws = joined(parts, 11);
    lemma_ends(parts);
    assert(ws[1] == parts[1][0] && ws[3] == parts[1][2] && ws[4] == parts[1][3]) by {
        lemma_joined(parts, 1, 11);
        let part = ws.subrange(1, 22);
        assert(part[0] == ws[1] && part[2] == ws[3] && part[3] == ws[4]);
    }
    assert(ws[22] == parts[2][0]) by {
        lemma_joined(parts, 2, 11);
        assert(ws.subrange(22, 23)[0] == ws[22]);
    }
    let at = joined(parts, 4).len() as int;
    assert(ws[at] == parts[4][0]) by {
        lemma_joined(parts, 4, 11);
        assert(ws.subrange(at, at + 1)[0] == ws[at]);
    }
}

/// Where the words of a checkpoint stand.
proof fn lemma_parts(model: Model, chars: Seq<char>)
    requires
        is_savable(model, chars),
    ensures
        ({
            let ws = model_words(model, chars);
            let l = layout(ws);
            &&& l.vocab == model.vocab
            &&& l.edges == model.graph.edges()
            &&& l.end == ws.len()
            &&& HEADER_WORDS <= l.rows <= l.cols <= l.weights <= l.embed <= l.readout <= l.bias
                <= l.end
            &&& ws.subrange(1, 22) == config_words(model.cfg)
            &&& ws.subrange(HEADER_WORDS as int, HEADER_WORDS + l.vocab) == codes(chars)
            &&& ws.subrange(l.rows, l.cols) == model.graph.row_ptr
            &&& ws.subrange(l.cols, l.weights) == model.graph.col_idx
            &&& ws.subrange(l.weights, l.embed) == bits_of(model.graph.weights)
            &&& ws.subrange(l.embed, l.readout) == bits_of(model.embed)
            &&& ws.subrange(l.readout, l.bias) == bits_of(model.readout)
            &&& ws.subrange(l.bias, l.end) == bits_of(model.bias_out)
        }),
{
    let parts = model_parts(model, chars);
    assert(have_sizes(parts));
    lemma_ends(parts);
    lemma_layout(parts);
    lemma_joined(parts, 1, 11);
    lemma_joined(parts, 3, 11);
    lemma_joined(parts, 5, 11);
    lemma_joined(parts, 6, 11);
    lemma_joined(parts, 7, 11);
    lemma_joined(parts, 8, 11);
    lemma_joined(parts, 9, 11);
    lemma_joined(parts, 10, 11);
}

/// Loading gives back what was saved: the same network and the same vocabulary,
/// whatever may stand behind the checkpoint.
pub proof fn law_load_undoes_save(model: Model, chars: Seq<char>, extra: Seq<u8>)
    requires
        is_savable(model, chars),
    ensures
        loaded(saved(model, chars) + extra) == Ok::<(Model, Seq<char>), LoadError>((model, chars)),
        loaded(saved(model, chars)) == Ok::<(Model, Seq<char>), LoadError>((model, chars)),
{
    lemma_load_undoes_save(model, chars, extra);
    lemma_load_undoes_save(model, chars, Seq::empty());
    assert(saved(model, chars) + Seq::<u8>::empty() =~= saved(model, chars));
}

proof fn lemma_load_undoes_save(model: Model, chars: Seq<char>, extra: Seq<u8>)
    requires
        is_savable(model, chars),
    ensures
        loaded(saved(model, chars) + extra) == Ok::<(Model, Seq<char>), LoadError>((model, chars)),
{
    let ws = model_words(model, chars);
    let bytes = saved(model, chars) + extra;
    let all = words_in(bytes);
    let l = layout(ws);
    lemma_words_of_saved(ws, extra);
    lemma_parts(model, chars);
    assert(ws.subrange(1, 22).len() == 21);
    assert(layout(all) == l) by {
        assert(all[1] == ws[1] && all[3] == ws[3] && all[4] == ws[4] && all[22] == ws[22]);
        assert(all[HEADER_WORDS + l.vocab] == ws[HEADER_WORDS + l.vocab]);
    }
    assert(is_complete(all));
    lemma_same_part(all, ws, 1, 22);
    lemma_same_part(all, ws, HEADER_WORDS as int, HEADER_WORDS + l.vocab);
    lemma_same_part(all, ws, l.rows, l.cols);
    lemma_same_part(all, ws, l.cols, l.weights);
    lemma_same_part(all, ws, l.weights, l.embed);
    lemma_same_part(all, ws, l.embed, l.readout);
    lemma_same_part(all, ws, l.readout, l.bias);
    lemma_same_part(all, ws, l.bias, l.end);
    lemma_singles(model.graph.weights);
    lemma_singles(model.embed);
    lemma_singles(model.readout);
    lemma_singles(model.bias_out);
    lemma_config(all, model.cfg);
    assert(model_in(all) =~= model);
    assert forall|i: int| 0 <= i < chars.len() implies #[trigger] chars_in(all)[i]
        == chars[i] by {
        assert(all.subrange(HEADER_WORDS as int, HEADER_WORDS + l.vocab)[i] == codes(chars)[i]);
        lemma_code(chars[i]);
    }
    assert(chars_in(all) =~= chars);
}

proof fn lemma_same_part(all: Seq<u32>, ws: Seq<u32>, a: int, b: int)
    requires
        0 <= a <= b <= ws.len() <= all.len(),
        forall|i: int| 0 <= i < ws.len() ==> #[trigger] all[i] == ws[i],
    ensures
        all.subrange(a, b) == ws.subrange(a, b),
{
    assert(all.subrange(a, b) =~= ws.subrange(a, b));
}

proof fn lemma_singles(xs: Seq<Single>)
    ensures
        singles(bits_of(xs)) == xs,
{
    assert(singles(bits_of(xs)) =~= xs);
}

proof fn lemma_config(ws: Seq<u32>, c: Config)
    requires
        ws.len() >= HEADER_WORDS,
        ws.subrange(1, 22) == config_words(c),
        c.n <= u32::MAX,
        c.k <= u32::MAX,
        c.n_in <= u32::MAX,
        c.n_out <= u32::MAX,
        c.window <= u32::MAX,
        c.rigl_interval <= u32::MAX,
        c.rigl_candidates <= u32::MAX,
        c.rigl_decay_steps <= u32::MAX,
    ensures
        config_in(ws) == c,
{
    assert forall|i: int| 1 <= i < 22 implies #[trigger] ws[i] == config_words(c)[i - 1] by {
        assert(ws.subrange(1, 22)[i - 1] == ws[i]);
    }
}

// --- the format -------------------------------------------------------------

/// A word is four bytes, the lowest first; a double word is eight.
pub proof fn law_bytes_come_lowest_first(v: u32, w: u64)
    ensures
        le_u32(v).len() == 4,
        v == le_u32(v)[0] + 0x100 * le_u32(v)[1] + 0x1_0000 * le_u32(v)[2] + 0x100_0000
            * le_u32(v)[3],
        le_u64(w).len() == 8,
        le_u64(w).take(4) == le_u32((w % 0x1_0000_0000) as u32),
        le_u64(w).skip(4) == le_u32((w / 0x1_0000_0000) as u32),
{
    let low = le_u32(low_word(w));
    let high = le_u32(high_word(w));
    assert(le_u64(w).take(4) =~= low);
    assert(le_u64(w).skip(4) =~= high);
}

/// A checkpoint is the letters C, L, A and I, and then its words.
pub proof fn law_checkpoint_is_a_mark_and_words(model: Model, chars: Seq<char>, k: int)
    requires
        0 <= k < model_words(model, chars).len(),
    ensures
        ({
            let bytes = saved(model, chars);
            let ws = model_words(model, chars);
            let at = 4 + 4 * k;
            &&& bytes.len() == 4 + 4 * ws.len()
            &&& bytes[0] == 0x43 && bytes[1] == 0x4c && bytes[2] == 0x41 && bytes[3] == 0x49
            &&& ws[k] == bytes[at] + 0x100 * bytes[at + 1] + 0x1_0000 * bytes[at + 2] + 0x100_0000
                * bytes[at + 3]
        }),
{
    let ws = model_words(model, chars);
    let bytes = saved(model, chars);
    let at = 4 + 4 * k;
    let b = le_words(ws);
    law_bytes_come_lowest_first(ws[k], 0);
    assert(b[4 * k] == le_u32(ws[k])[0]);
    assert(b[4 * k + 1] == le_u32(ws[k])[1]);
    assert(b[4 * k + 2] == le_u32(ws[k])[2]);
    assert(b[4 * k + 3] == le_u32(ws[k])[3]);
    assert(bytes[at] == b[4 * k] && bytes[at + 1] == b[4 * k + 1] && bytes[at + 2] == b[4 * k + 2]
        && bytes[at + 3] == b[4 * k + 3]);
}

/// The order of the words of a checkpoint: the version, which is 1; sizes; rates;
/// whether gating is hard, and whether rewiring is enabled; the seed; and the size
/// of the vocabulary.
pub proof fn law_checkpoint_starts_with_the_configuration(model: Model, chars: Seq<char>)
    requires
        is_savable(model, chars),
    ensures
        ({
            let ws = model_words(model, chars);
            let c = model.cfg;
            &&& ws[0] == 1
            &&& ws[1] == c.n && ws[2] == c.k && ws[3] == c.n_in && ws[4] == c.n_out
            &&& ws[5] == c.window && ws[6] == c.rigl_interval
            &&& ws[7] == c.rigl_candidates && ws[8] == c.rigl_decay_steps
            &&& ws[9] == c.theta.bits && ws[10] == c.beta.bits
            &&& ws[11] == c.spectral_radius.bits && ws[12] == c.lr.bits
            &&& ws[13] == c.adam_beta1.bits && ws[14] == c.adam_beta2.bits
            &&& ws[15] == c.adam_eps.bits && ws[16] == c.grad_clip.bits
            &&& ws[17] == c.rigl_fraction.bits
            &&& (c.gate == GateMode::Hard ==> ws[18] == 1)
            &&& (c.gate == GateMode::Soft ==> ws[18] == 0)
            &&& (c.rigl_enabled ==> ws[19] == 1)
            &&& (!c.rigl_enabled ==> ws[19] == 0)
            &&& c.seed == ws[20] + 0x1_0000_0000 * ws[21]
            &&& ws[22] == chars.len()
        }),
{
    let ws = model_words(model, chars);
    let c = config_words(model.cfg);
    let parts = model_parts(model, chars);
    assert(have_sizes(parts));
    lemma_ends(parts);
    lemma_layout(parts);
    assert(ws[0] == VERSION) by {
        lemma_joined(parts, 0, 11);
        assert(ws.subrange(0, 1)[0] == ws[0]);
    }
    assert forall|i: int| 1 <= i < 22 implies #[trigger] ws[i] == c[i - 1] by {
        lemma_joined(parts, 1, 11);
        assert(ws.subrange(1, 22)[i - 1] == ws[i]);
    }
    assert(ws[22] == chars.len()) by {
        lemma_joined(parts, 2, 11);
        assert(ws.subrange(22, 23)[0] == ws[22]);
    }
}

/// Behind the configuration stand the vocabulary, the number of edges, the rows, the
/// targets and the weights of the edges, the embedding, the readout and the biases,
/// in this order.
pub proof fn law_checkpoint_holds_vocabulary_and_parameters(
    model: Model,
    chars: Seq<char>,
    k: int,
)
    requires
        is_savable(model, chars),
    ensures
        ({
            let ws = model_words(model, chars);
            let g = model.graph;
            let rows = 24 + chars.len() as int;
            let cols = rows + model.cfg.n + 1;
            let weights = cols + g.edges();
            let embed = weights + g.edges();
            let readout = embed + model.embed.len();
            let bias = readout + model.readout.len();
            &&& ws.len() == bias + model.bias_out.len()
            &&& 0 <= k < chars.len() ==> ws[23 + k] == chars[k] as u32
            &&& ws[23 + chars.len() as int] == g.edges()
            &&& 0 <= k <= model.cfg.n ==> ws[rows + k] == g.row_ptr[k]
            &&& 0 <= k < g.edges() ==> ws[cols + k] == g.col_idx[k]
            &&& 0 <= k < g.edges() ==> ws[weights + k] == g.weights[k].bits
            &&& 0 <= k < model.embed.len() ==> ws[embed + k] == model.embed[k].bits
            &&& 0 <= k < model.readout.len() ==> ws[readout + k] == model.readout[k].bits
            &&& 0 <= k < model.bias_out.len() ==> ws[bias + k] == model.bias_out[k].bits
        }),
{
    let ws = model_words(model, chars);
    let g = model.graph;
    let parts = model_parts(model, chars);
    assert(have_sizes(parts));
    lemma_ends(parts);
    lemma_layout(parts);
    lemma_part_at(parts, 3, k);
    lemma_part_at(parts, 4, 0);
    lemma_part_at(parts, 5, k);
    lemma_part_at(parts, 6, k);
    lemma_part_at(parts, 7, k);
    lemma_part_at(parts, 8, k);
    lemma_part_at(parts, 9, k);
    lemma_part_at(parts, 10, k);
}

/// Word `k` of a part.
proof fn lemma_part_at(parts: Seq<Seq<u32>>, p: int, k: int)
    requires
        0 <= p < 11,
    ensures
        0 <= k < parts[p].len() ==> joined(parts, 11)[joined(parts, p).len() + k] == parts[p][k],
{
    lemma_joined(parts, p, 11);
    let at = joined(parts, p).len() as int;
    if 0 <= k < parts[p].len() {
        assert(joined(parts, 11).subrange(at, (at + parts[p].len()) as int)[k] == joined(
            parts,
            11,
        )[at + k]);
    }
}

/// What a configuration is read from: one word each, a flag being set where its word is
/// 1, and the seed of two.
pub proof fn law_configuration_is_read_word_by_word(ws: Seq<u32>)
    ensures
        ({
            let c = config_in(ws);
            &&& c.n == ws[1] && c.k == ws[2] && c.n_in == ws[3] && c.n_out == ws[4]
            &&& c.window == ws[5] && c.rigl_interval == ws[6]
            &&& c.rigl_candidates == ws[7] && c.rigl_decay_steps == ws[8]
            &&& c.theta.bits == ws[9] && c.beta.bits == ws[10]
            &&& c.spectral_radius.bits == ws[11] && c.lr.bits == ws[12]
            &&& c.adam_beta1.bits == ws[13] && c.adam_beta2.bits == ws[14]
            &&& c.adam_eps.bits == ws[15] && c.grad_clip.bits == ws[16]
            &&& c.rigl_fraction.bits == ws[17]
            &&& c.gate == GateMode::Hard <==> ws[18] == 1
            &&& c.rigl_enabled <==> ws[19] == 1
            &&& c.seed == ws[20] + 0x1_0000_0000 * ws[21]
        }),
{
}

/// A word of the vocabulary that is no character is read as the replacement character.
pub proof fn law_words_that_are_no_characters(w: u32, c: char)
    ensures
        char_of(c as u32) == c,
        0xD800 <= w <= 0xDFFF || 0x10FFFF < w ==> char_of(w) as u32 == 0xFFFD,
{
    lemma_code(c);
    lemma_code(char_of(w));
}

/// Bytes that do not start with the mark are no checkpoint, and fewer than four are
/// cut short.
pub proof fn law_mark_is_checked(bytes: Seq<u8>)
    ensures
        bytes.len() < 4 ==> loaded(bytes) == Err::<(Model, Seq<char>), LoadError>(
            LoadError::Truncated,
        ),
        bytes.len() >= 4 ==> (loaded(bytes) == Err::<(Model, Seq<char>), LoadError>(
            LoadError::BadMagic,
        ) <==> !(bytes[0] == 0x43 && bytes[1] == 0x4c && bytes[2] == 0x41 && bytes[3] == 0x49)),
{
    if bytes.len() >= 4 {
        let start = bytes.take(4);
        assert(start[0] == bytes[0] && start[1] == bytes[1] && start[2] == bytes[2] && start[3]
            == bytes[3]);
        if bytes[0] == 0x43 && bytes[1] == 0x4c && bytes[2] == 0x41 && bytes[3] == 0x49 {
            assert(start =~= magic());
        }
    }
}

/// The words of a checkpoint that is cut short are the first of its words.
proof fn lemma_cut_words(ws: Seq<u32>, len: int)
    requires
        4 <= len < 4 + 4 * ws.len(),
    ensures
        ({
            let bytes = (magic() + le_words(ws)).take(len);
            let cut = words_in(bytes);
            &&& bytes.len() == len
            &&& bytes.take(4) == magic()
            &&& cut.len() < ws.len()
            &&& forall|i: int| 0 <= i < cut.len() ==> #[trigger] cut[i] == ws[i]
        }),
{
    let whole = magic() + le_words(ws);
    let bytes = whole.take(len);
    let cut = words_in(bytes);
    lemma_words_of_saved(ws, Seq::empty());
    assert(whole + Seq::<u8>::empty() =~= whole);
    assert(bytes.take(4) =~= magic());
    assert forall|i: int| 0 <= i < cut.len() implies #[trigger] cut[i] == ws[i] by {
        assert(words_in(whole)[i] == ws[i]);
        assert(bytes[4 + 4 * i] == whole[4 + 4 * i]);
        assert(bytes[4 + 4 * i + 1] == whole[4 + 4 * i + 1]);
        assert(bytes[4 + 4 * i + 2] == whole[4 + 4 * i + 2]);
        assert(bytes[4 + 4 * i + 3] == whole[4 + 4 * i + 3]);
    }
}

/// Fewer words than there are do not make a checkpoint complete.
proof fn lemma_cut_is_incomplete(ws: Seq<u32>, cut: Seq<u32>)
    requires
        HEADER_WORDS <= ws.len(),
        0 <= layout(ws).vocab,
        HEADER_WORDS + layout(ws).vocab < ws.len(),
        layout(ws).end == ws.len(),
        cut.len() < ws.len(),
        forall|i: int| 0 <= i < cut.len() ==> #[trigger] cut[i] == ws[i],
    ensures
        !is_complete(cut),
{
    if HEADER_WORDS <= cut.len() && layout(cut).rows <= cut.len() {
        let l = layout(ws);
        assert(cut[1] == ws[1] && cut[3] == ws[3] && cut[4] == ws[4] && cut[22] == ws[22]);
        assert(cut[HEADER_WORDS + l.vocab] == ws[HEADER_WORDS + l.vocab]);
        assert(layout(cut).end == l.end);
    }
}

/// What is left of words that make a checkpoint, where it is cut.
proof fn lemma_cut_is_truncated(ws: Seq<u32>, len: int)
    requires
        HEADER_WORDS <= ws.len(),
        0 <= layout(ws).vocab,
        HEADER_WORDS + layout(ws).vocab < ws.len(),
        layout(ws).end == ws.len(),
        0 <= len < 4 + 4 * ws.len(),
    ensures
        loaded((magic() + le_words(ws)).take(len)) == Err::<(Model, Seq<char>), LoadError>(
            LoadError::Truncated,
        ),
{
    let bytes = (magic() + le_words(ws)).take(len);
    if len >= 4 {
        lemma_cut_words(ws, len);
        lemma_cut_is_incomplete(ws, words_in(bytes));
    }
}

/// A checkpoint that is cut short is found to be, wherever it is cut.
pub proof fn law_truncation_is_found(model: Model, chars: Seq<char>, len: int)
    requires
        is_savable(model, chars),
        0 <= len < saved(model, chars).len(),
    ensures
        loaded(saved(model, chars).take(len)) == Err::<(Model, Seq<char>), LoadError>(
            LoadError::Truncated,
        ),
{
    let ws = model_words(model, chars);
    assert(layout(ws).end == ws.len() && HEADER_WORDS + layout(ws).vocab < ws.len()) by {
        lemma_parts(model, chars);
    }
    assert(saved(model, chars).len() == 4 + 4 * ws.len());
    lemma_cut_is_truncated(ws, len);
}

/// The version is not looked at: checkpoints that differ in it alone load alike.
pub proof fn law_version_makes_no_difference(x: Seq<u8>, y: Seq<u8>)
    requires
        x.len() == y.len(),
        forall|i: int| 0 <= i < x.len() && !(4 <= i < 8) ==> #[trigger] x[i] == y[i],
    ensures
        loaded(x) == loaded(y),
{
    if x.len() >= 4 {
        assert(x.take(4) =~= y.take(4));
        let a = words_in(x);
        let b = words_in(y);
        assert forall|i: int| 1 <= i < a.len() implies #[trigger] a[i] == b[i] by {
            assert(x[4 + 4 * i] == y[4 + 4 * i]);
            assert(x[4 + 4 * i + 1] == y[4 + 4 * i + 1]);
            assert(x[4 + 4 * i + 2] == y[4 + 4 * i + 2]);
            assert(x[4 + 4 * i + 3] == y[4 + 4 * i + 3]);
        }
        if HEADER_WORDS <= a.len() {
            assert(a[1] == b[1] && a[3] == b[3] && a[4] == b[4] && a[22] == b[22]);
            let l = layout(a);
            if l.rows <= a.len() {
                assert(a[HEADER_WORDS + l.vocab] == b[HEADER_WORDS + l.vocab]);
                assert(layout(b) == l);
                if l.end <= a.len() {
                    lemma_table_order(l.vocab, a[3] as int);
                    lemma_table_order(a[4] as int, l.vocab);
                    lemma_alike(a, b, l.rows, l.cols);
                    lemma_alike(a, b, l.cols, l.weights);
                    lemma_alike(a, b, l.weights, l.embed);
                    lemma_alike(a, b, l.embed, l.readout);
                    lemma_alike(a, b, l.readout, l.bias);
                    lemma_alike(a, b, l.bias, l.end);
                    assert(config_in(a) == config_in(b));
                    assert(model_in(a) == model_in(b));
                    assert(chars_in(a) =~= chars_in(b));
                }
            }
        }
    }
}

proof fn lemma_table_order(rows: int, cols: int)
    requires
        0 <= rows,
        0 <= cols,
    ensures
        0 <= rows * cols,
{
    assert(0 <= rows * cols) by (nonlinear_arith)
        requires
            0 <= rows,
            0 <= cols,
    ;
}

proof fn lemma_alike(a: Seq<u32>, b: Seq<u32>, from: int, to: int)
    requires
        1 <= from <= to <= a.len(),
        a.len() == b.len(),
        forall|i: int| 1 <= i < a.len() ==> #[trigger] a[i] == b[i],
    ensures
        a.subrange(from, to) == b.subrange(from, to),
{
    assert(a.subrange(from, to) =~= b.subrange(from, to));
}

} // verus!
