//! The model shape the decisions read, and what follows from the architecture
//! alone.

use vstd::prelude::*;

use crate::text;

verus! {

/// The architecture families.
#[derive(Clone, Copy, Debug, PartialEq, Eq, Structural)]
pub enum Arch {
    /// Latent attention with routed experts.
    GlmMla,
    /// Grouped-query attention throughout, dense feed-forward.
    DenseGqa,
    /// Gated linear attention with full-attention layers in between.
    HybridGdn,
}

/// A model's dimensions.
pub struct Cfg {
    /// Architecture family.
    pub arch: Arch,
    /// Transformer layers of the main stack.
    pub n_layers: usize,
    /// Routed experts per sparse layer.
    pub n_experts: usize,
    /// Width of the residual stream.
    pub hidden: usize,
    /// Width of one routed expert.
    pub moe_inter: usize,
    /// Layers before the first sparse one.
    pub first_dense: usize,
    /// Vocabulary size.
    pub vocab: usize,
    /// Experts each row routes to.
    pub topk: usize,
    /// Shared experts per sparse layer.
    pub n_shared: usize,
    /// Width of a dense feed-forward.
    pub dense_inter: usize,
    /// Attention heads.
    pub n_heads: usize,
    /// Key and value heads of grouped-query attention.
    pub n_kv_heads: usize,
    /// Width of one grouped-query head.
    pub head_dim: usize,
    /// Whether the query projection also carries an output gate.
    pub attn_gate: bool,
    /// Width of one latent-attention query head.
    pub qk_head: usize,
    /// Its part without positional rotation.
    pub qk_nope: usize,
    /// Its rotated part.
    pub qk_rope: usize,
    /// Width of one latent-attention value head.
    pub v_head: usize,
    /// Rank of the query latent.
    pub q_lora: usize,
    /// Rank of the key-value latent.
    pub kv_lora: usize,
    /// Key heads of a linear-attention layer.
    pub lin_k_heads: usize,
    /// Value heads of a linear-attention layer.
    pub lin_v_heads: usize,
    /// Width of one linear-attention key head.
    pub lin_k_dim: usize,
    /// Width of one linear-attention value head.
    pub lin_v_dim: usize,
    /// Taps of a linear-attention layer's convolution.
    pub lin_conv_k: usize,
    /// Elements of one linear-attention layer's recurrent state.
    pub gdn_cells: usize,
    /// Width of the first stream of a cached position.
    pub kv_row_a: usize,
    /// Width of the second stream of a cached position.
    pub kv_row_b: usize,
    /// Which layers attend in full, where the architecture mixes.
    pub full_attn: Vec<bool>,
}

impl Cfg {
    /// Layer `i` is marked as attending in full, `default` where nothing is
    /// said of it.
    pub open spec fn marked_full(&self, i: int, default: bool) -> bool {
        if 0 <= i < self.full_attn@.len() {
            self.full_attn@[i]
        } else {
            default
        }
    }

    /// Whether layer `i` is marked as attending in full.
    pub fn full_at(&self, i: usize, default: bool) -> (b: bool)
        ensures
            b == self.marked_full(i as int, default),
    {
        if i < self.full_attn.len() {
            self.full_attn[i]
        } else {
            default
        }
    }

    /// Layer `i` keeps its context in a recurrent state instead of cached rows.
    pub open spec fn recurrent(&self, i: int) -> bool {
        self.arch == Arch::HybridGdn && !self.marked_full(i, true)
    }

    /// Whether layer `i` keeps its context in a recurrent state.
    pub fn is_recurrent(&self, i: usize) -> (b: bool)
        ensures
            b == self.recurrent(i as int),
    {
        self.arch == Arch::HybridGdn && !self.full_at(i, true)
    }
}

/// The fingerprint's text for six dimensions.
pub open spec fn tag_text(l: nat, e: nat, h: nat, i: nat, d: nat, v: nat) -> Seq<char> {
    "L"@ + text::decimal(l) + "E"@ + text::decimal(e) + "H"@ + text::decimal(h) + "I"@ + text::decimal(i) + "D"@ + text::decimal(
        d,
    ) + "V"@ + text::decimal(v)
}

/// The fingerprint of a shape.
pub open spec fn tag_of(cfg: Cfg) -> Seq<char> {
    tag_text(
        cfg.n_layers as nat,
        cfg.n_experts as nat,
        cfg.hidden as nat,
        cfg.moe_inter as nat,
        cfg.first_dense as nat,
        cfg.vocab as nat,
    )
}

/// A coarse fingerprint of the model's shape, stamped into every persisted
/// artifact so one from a different checkpoint is ignored on load.
pub fn config_tag(cfg: &Cfg) -> (tag: String)
    ensures
        tag@ == tag_of(*cfg),
{
    "L".to_owned().concat(text::decimal_text(cfg.n_layers).as_str()).concat("E").concat(
        text::decimal_text(cfg.n_experts).as_str(),
    ).concat("H").concat(text::decimal_text(cfg.hidden).as_str()).concat("I").concat(
        text::decimal_text(cfg.moe_inter).as_str(),
    ).concat("D").concat(text::decimal_text(cfg.first_dense).as_str()).concat("V").concat(
        text::decimal_text(cfg.vocab).as_str(),
    )
}

/// Digits followed by a character that is none: the split is at that character,
/// so two such texts that agree have the same digits and the same rest.
proof fn lemma_digits_split(a: Seq<char>, x: Seq<char>, b: Seq<char>, y: Seq<char>)
    requires
        text::all_digits(a),
        text::all_digits(b),
        x.len() > 0 ==> !text::is_digit(x[0]),
        y.len() > 0 ==> !text::is_digit(y[0]),
        a + x == b + y,
    ensures
        a == b,
        x == y,
{
    if a.len() < b.len() {
        assert((b + y)[a.len() as int] == b[a.len() as int]);
        assert((a + x)[a.len() as int] == x[0]);
        assert(false);
    }
    if b.len() < a.len() {
        assert((a + x)[b.len() as int] == a[b.len() as int]);
        assert((b + y)[b.len() as int] == y[0]);
        assert(false);
    }
    assert(a =~= (a + x).subrange(0, a.len() as int));
    assert(b =~= (b + y).subrange(0, b.len() as int));
    assert(x =~= (a + x).subrange(a.len() as int, (a + x).len() as int));
    assert(y =~= (b + y).subrange(b.len() as int, (b + y).len() as int));
}

/// One field of a fingerprint and what follows it determine the number and the
/// rest.
proof fn lemma_field(
    k: char,
    m: nat,
    x: Seq<char>,
    n: nat,
    y: Seq<char>,
)
    requires
        seq![k] + (text::decimal(m) + x) == seq![k] + (text::decimal(n) + y),
        x.len() > 0 ==> !text::is_digit(x[0]),
        y.len() > 0 ==> !text::is_digit(y[0]),
    ensures
        m == n,
        x == y,
{
    let s = seq![k] + (text::decimal(m) + x);
    let t = seq![k] + (text::decimal(n) + y);
    assert(s.subrange(1, s.len() as int) =~= text::decimal(m) + x);
    assert(t.subrange(1, t.len() as int) =~= text::decimal(n) + y);
    text::lemma_decimal_reads_back(m);
    text::lemma_decimal_reads_back(n);
    lemma_digits_split(text::decimal(m), x, text::decimal(n), y);
}

/// A fingerprint read field by field from the front.
proof fn lemma_tag_nests(
    l: Seq<char>,
    e: Seq<char>,
    h: Seq<char>,
    i: Seq<char>,
    d: Seq<char>,
    v: Seq<char>,
)
    ensures
        "L"@ + l + "E"@ + e + "H"@ + h + "I"@ + i + "D"@ + d + "V"@ + v == seq!['L'] + (l + (seq!['E']
            + (e + (seq!['H'] + (h + (seq!['I'] + (i + (seq!['D'] + (d + (seq!['V'] + (v
            + Seq::<char>::empty()))))))))))),
{
    reveal_strlit("L");
    reveal_strlit("E");
    reveal_strlit("H");
    reveal_strlit("I");
    reveal_strlit("D");
    reveal_strlit("V");
    assert("L"@ =~= seq!['L']);
    assert("E"@ =~= seq!['E']);
    assert("H"@ =~= seq!['H']);
    assert("I"@ =~= seq!['I']);
    assert("D"@ =~= seq!['D']);
    assert("V"@ =~= seq!['V']);
    assert("L"@ + l + "E"@ + e + "H"@ + h + "I"@ + i + "D"@ + d + "V"@ + v =~= seq!['L'] + (l + (seq![
        'E',
    ] + (e + (seq!['H'] + (h + (seq!['I'] + (i + (seq!['D'] + (d + (seq!['V'] + (v + Seq::<
        char,
    >::empty()))))))))))));
}

/// Two shapes with the same fingerprint agree in every dimension it covers, so
/// an artifact accepted by its fingerprint was written for these dimensions.
pub proof fn lemma_tag_identifies_shape(a: Cfg, b: Cfg)
    requires
        tag_of(a) == tag_of(b),
    ensures
        a.n_layers == b.n_layers,
        a.n_experts == b.n_experts,
        a.hidden == b.hidden,
        a.moe_inter == b.moe_inter,
        a.first_dense == b.first_dense,
        a.vocab == b.vocab,
{
    let none = Seq::<char>::empty();
    let av = seq!['V'] + (text::decimal(a.vocab as nat) + none);
    let bv = seq!['V'] + (text::decimal(b.vocab as nat) + none);
    let ad = seq!['D'] + (text::decimal(a.first_dense as nat) + av);
    let bd = seq!['D'] + (text::decimal(b.first_dense as nat) + bv);
    let ai = seq!['I'] + (text::decimal(a.moe_inter as nat) + ad);
    let bi = seq!['I'] + (text::decimal(b.moe_inter as nat) + bd);
    let ah = seq!['H'] + (text::decimal(a.hidden as nat) + ai);
    let bh = seq!['H'] + (text::decimal(b.hidden as nat) + bi);
    let ae = seq!['E'] + (text::decimal(a.n_experts as nat) + ah);
    let be = seq!['E'] + (text::decimal(b.n_experts as nat) + bh);
    lemma_tag_nests(
        text::decimal(a.n_layers as nat),
        text::decimal(a.n_experts as nat),
        text::decimal(a.hidden as nat),
        text::decimal(a.moe_inter as nat),
        text::decimal(a.first_dense as nat),
        text::decimal(a.vocab as nat),
    );
    lemma_tag_nests(
        text::decimal(b.n_layers as nat),
        text::decimal(b.n_experts as nat),
        text::decimal(b.hidden as nat),
        text::decimal(b.moe_inter as nat),
        text::decimal(b.first_dense as nat),
        text::decimal(b.vocab as nat),
    );
    lemma_field('L', a.n_layers as nat, ae, b.n_layers as nat, be);
    lemma_field('E', a.n_experts as nat, ah, b.n_experts as nat, bh);
    lemma_field('H', a.hidden as nat, ai, b.hidden as nat, bi);
    lemma_field('I', a.moe_inter as nat, ad, b.moe_inter as nat, bd);
    lemma_field('D', a.first_dense as nat, av, b.first_dense as nat, bv);
    lemma_field('V', a.vocab as nat, none, b.vocab as nat, none);
}

/// A layer is recurrent only in a hybrid model, and only where the list says that
/// it has no full attention; a layer past the list is not.
pub proof fn lemma_which_layers_are_recurrent(c: Cfg, i: int)
    ensures
        c.recurrent(i) <==> c.arch == Arch::HybridGdn && 0 <= i < c.full_attn@.len()
            && c.full_attn@[i] == false,
        0 <= i < c.full_attn@.len() ==> c.marked_full(i, true) == c.full_attn@[i]
            && c.marked_full(i, false) == c.full_attn@[i],
        i >= c.full_attn@.len() ==> c.marked_full(i, true) && !c.marked_full(i, false),
{
}

/// A tag spells layers, experts, hidden width, expert width, leading dense layers
/// and vocabulary, in this order, each under its letter.
pub proof fn lemma_tag_spells_the_shape(c: Cfg)
    ensures
        tag_of(c) == "L"@ + text::decimal(c.n_layers as nat) + "E"@ + text::decimal(
            c.n_experts as nat,
        ) + "H"@ + text::decimal(c.hidden as nat) + "I"@ + text::decimal(c.moe_inter as nat) + "D"@
            + text::decimal(c.first_dense as nat) + "V"@ + text::decimal(c.vocab as nat),
{
}

} // verus!
