//! What loading a checkpoint reads: every tensor by name, shape and form, in
//! the order in which a missing or misshapen one is reported.

use vstd::prelude::*;

use crate::cfg::Arch;
use crate::cfg::Cfg;
use crate::text;

verus! {

/// The form one tensor is read in.
#[derive(Clone, Copy, Debug, PartialEq, Eq, Structural)]
pub enum Form {
    /// A quantised matrix.
    Packed {
        /// Output rows.
        rows: usize,
        /// Input columns.
        cols: usize,
    },
    /// A plain vector.
    Plain {
        /// Elements.
        len: usize,
    },
    /// A norm weight stored as its offset from one.
    ZeroCentered {
        /// Elements.
        len: usize,
    },
    /// Not read: only its presence is checked.
    Present,
}

/// One tensor of a load.
pub struct TensorRead {
    /// The tensor's name in the container.
    pub name: String,
    /// The form it is read in.
    pub form: Form,
}

/// A load as names and forms.
pub open spec fn listing(reads: Seq<TensorRead>) -> Seq<(Seq<char>, Form)> {
    Seq::new(reads.len(), |i: int| (reads[i].name@, reads[i].form))
}

/// The attention a layer's weights are for.
#[derive(Clone, Copy, Debug, PartialEq, Eq, Structural)]
pub enum Attn {
    /// Latent attention.
    Mla,
    /// Grouped-query attention.
    Gqa,
    /// Gated linear attention.
    Gdn,
}

/// The matrices of a layer's attention, by short name, in the order they are
/// offered to a device.
pub open spec fn projection_names(attn: Attn) -> Seq<Seq<char>> {
    match attn {
        Attn::Mla => seq!["q_a"@, "q_b"@, "kv_a"@, "kv_b"@, "o"@],
        Attn::Gqa => seq!["q"@, "k"@, "v"@, "o"@],
        Attn::Gdn => seq!["in_qkv"@, "in_z"@, "in_a"@, "in_b"@, "out"@],
    }
}

/// The short names of the matrices of a layer's attention.
pub fn attn_weights(attn: Attn) -> (names: Vec<&'static str>)
    ensures
        names@.len() == projection_names(attn).len(),
        forall|i: int|
            0 <= i < names@.len() ==> (#[trigger] names@[i])@ == projection_names(attn)[i],
{
    match attn {
        Attn::Mla => vec!["q_a", "q_b", "kv_a", "kv_b", "o"],
        Attn::Gqa => vec!["q", "k", "v", "o"],
        Attn::Gdn => vec!["in_qkv", "in_z", "in_a", "in_b", "out"],
    }
}

/// Where a layer's tensors live and how it is read, for a layer off the main
/// stack's schedule. `None` means: as the stack has it.
pub struct LayerSite {
    /// The tensors' common prefix.
    pub prefix: Option<String>,
    /// Whether the layer attends in full.
    pub full_attn: Option<bool>,
    /// Whether the layer routes to experts.
    pub sparse: Option<bool>,
}

/// The stack's prefix for layer `i`.
pub open spec fn stack_prefix(cfg: Cfg, i: nat) -> Seq<char> {
    match cfg.arch {
        Arch::HybridGdn => "model.language_model.layers."@ + text::decimal(i) + "."@,
        _ => "model.layers."@ + text::decimal(i) + "."@,
    }
}

/// The per-layer tensor prefix of this architecture.
pub fn layer_prefix(cfg: &Cfg, i: usize) -> (pre: String)
    ensures
        pre@ == stack_prefix(*cfg, i as nat),
{
    match cfg.arch {
        Arch::HybridGdn => "model.language_model.layers.".to_owned().concat(
            text::decimal_text(i).as_str(),
        ).concat("."),
        _ => "model.layers.".to_owned().concat(text::decimal_text(i).as_str()).concat("."),
    }
}

/// The dimensions a load multiplies fit in a `usize`.
pub open spec fn shape_fits(c: Cfg) -> bool {
    &&& c.n_heads * c.qk_head <= usize::MAX
    &&& c.kv_lora + c.qk_rope <= usize::MAX
    &&& c.qk_nope + c.v_head <= usize::MAX
    &&& c.n_heads * (c.qk_nope + c.v_head) <= usize::MAX
    &&& c.n_heads * c.v_head <= usize::MAX
    &&& 2 * c.n_heads <= usize::MAX
    &&& c.n_heads * c.head_dim <= usize::MAX
    &&& 2 * c.n_heads * c.head_dim <= usize::MAX
    &&& c.n_kv_heads * c.head_dim <= usize::MAX
    &&& 2 * c.lin_k_heads <= usize::MAX
    &&& 2 * c.lin_k_heads * c.lin_k_dim + c.lin_v_heads * c.lin_v_dim <= usize::MAX
    &&& (2 * c.lin_k_heads * c.lin_k_dim + c.lin_v_heads * c.lin_v_dim) * c.lin_conv_k
        <= usize::MAX
    &&& c.n_experts * c.hidden <= usize::MAX
    &&& c.moe_inter * c.n_shared <= usize::MAX
    &&& 2 * c.hidden <= usize::MAX
}

/// A norm weight: zero-centred in the hybrid family, plain elsewhere.
pub open spec fn norm_form(cfg: Cfg, len: usize) -> Form {
    if cfg.arch == Arch::HybridGdn {
        Form::ZeroCentered { len }
    } else {
        Form::Plain { len }
    }
}

/// The attention weights of one layer.
pub open spec fn attn_reads(c: Cfg, pre: Seq<char>, attn: Attn) -> Seq<(Seq<char>, Form)> {
    let d = c.hidden;
    match attn {
        Attn::Mla => seq![
            (pre + "self_attn.q_a_proj.weight"@, Form::Packed { rows: c.q_lora, cols: d }),
            (pre + "self_attn.q_a_layernorm.weight"@, Form::Plain { len: c.q_lora }),
            (
                pre + "self_attn.q_b_proj.weight"@,
                Form::Packed { rows: (c.n_heads * c.qk_head) as usize, cols: c.q_lora },
            ),
            (
                pre + "self_attn.kv_a_proj_with_mqa.weight"@,
                Form::Packed { rows: (c.kv_lora + c.qk_rope) as usize, cols: d },
            ),
            (pre + "self_attn.kv_a_layernorm.weight"@, Form::Plain { len: c.kv_lora }),
            (
                pre + "self_attn.kv_b_proj.weight"@,
                Form::Packed {
                    rows: (c.n_heads * (c.qk_nope + c.v_head)) as usize,
                    cols: c.kv_lora,
                },
            ),
            (
                pre + "self_attn.o_proj.weight"@,
                Form::Packed { rows: d, cols: (c.n_heads * c.v_head) as usize },
            ),
        ],
        Attn::Gqa => {
            let q = if c.attn_gate {
                2 * c.n_heads * c.head_dim
            } else {
                c.n_heads * c.head_dim
            };
            seq![
                (pre + "self_attn.q_proj.weight"@, Form::Packed { rows: q as usize, cols: d }),
                (
                    pre + "self_attn.k_proj.weight"@,
                    Form::Packed { rows: (c.n_kv_heads * c.head_dim) as usize, cols: d },
                ),
                (
                    pre + "self_attn.v_proj.weight"@,
                    Form::Packed { rows: (c.n_kv_heads * c.head_dim) as usize, cols: d },
                ),
                (
                    pre + "self_attn.o_proj.weight"@,
                    Form::Packed { rows: d, cols: (c.n_heads * c.head_dim) as usize },
                ),
                (pre + "self_attn.q_norm.weight"@, norm_form(c, c.head_dim)),
                (pre + "self_attn.k_norm.weight"@, norm_form(c, c.head_dim)),
            ]
        },
        Attn::Gdn => {
            let values = c.lin_v_heads * c.lin_v_dim;
            let conv = 2 * c.lin_k_heads * c.lin_k_dim + values;
            seq![
                (
                    pre + "linear_attn.in_proj_qkv.weight"@,
                    Form::Packed { rows: conv as usize, cols: d },
                ),
                (
                    pre + "linear_attn.in_proj_z.weight"@,
                    Form::Packed { rows: values as usize, cols: d },
                ),
                (
                    pre + "linear_attn.in_proj_a.weight"@,
                    Form::Packed { rows: c.lin_v_heads, cols: d },
                ),
                (
                    pre + "linear_attn.in_proj_b.weight"@,
                    Form::Packed { rows: c.lin_v_heads, cols: d },
                ),
                (
                    pre + "linear_attn.conv1d.weight"@,
                    Form::Plain { len: (conv * c.lin_conv_k) as usize },
                ),
                (pre + "linear_attn.A_log"@, Form::Plain { len: c.lin_v_heads }),
                (pre + "linear_attn.dt_bias"@, Form::Plain { len: c.lin_v_heads }),
                (pre + "linear_attn.norm.weight"@, Form::Plain { len: c.lin_v_dim }),
                (
                    pre + "linear_attn.out_proj.weight"@,
                    Form::Packed { rows: d, cols: values as usize },
                ),
            ]
        },
    }
}

/// A gated feed-forward of width `inter`: gate, up and down.
pub open spec fn mlp_reads(pre: Seq<char>, d: usize, inter: usize) -> Seq<(Seq<char>, Form)> {
    seq![
        (pre + "gate_proj.weight"@, Form::Packed { rows: inter, cols: d }),
        (pre + "up_proj.weight"@, Form::Packed { rows: inter, cols: d }),
        (pre + "down_proj.weight"@, Form::Packed { rows: d, cols: inter }),
    ]
}

/// The same three tensors, left on disk.
pub open spec fn mlp_present(pre: Seq<char>) -> Seq<(Seq<char>, Form)> {
    seq![
        (pre + "gate_proj.weight"@, Form::Present),
        (pre + "up_proj.weight"@, Form::Present),
        (pre + "down_proj.weight"@, Form::Present),
    ]
}

/// The prefix of routed expert `e`.
pub open spec fn expert_prefix(pre: Seq<char>, e: nat) -> Seq<char> {
    pre + "mlp.experts."@ + text::decimal(e) + "."@
}

/// The first `n` routed experts of a layer.
pub open spec fn expert_reads(c: Cfg, pre: Seq<char>, stream: bool, n: nat) -> Seq<
    (Seq<char>, Form),
>
    decreases n,
{
    if n == 0 {
        Seq::empty()
    } else {
        let e = (n - 1) as nat;
        expert_reads(c, pre, stream, e) + if stream {
            mlp_present(expert_prefix(pre, e))
        } else {
            mlp_reads(expert_prefix(pre, e), c.hidden, c.moe_inter)
        }
    }
}

/// The feed-forward weights of one layer.
pub open spec fn ffn_reads(c: Cfg, pre: Seq<char>, sparse: bool, stream: bool) -> Seq<
    (Seq<char>, Form),
> {
    if !sparse {
        mlp_reads(pre + "mlp."@, c.hidden, c.dense_inter)
    } else {
        seq![
            (pre + "mlp.gate.weight"@, Form::Plain { len: (c.n_experts * c.hidden) as usize }),
            (pre + "mlp.gate.e_score_correction_bias"@, Form::Plain { len: c.n_experts }),
        ] + mlp_reads(
            pre + "mlp.shared_experts."@,
            c.hidden,
            (c.moe_inter * c.n_shared) as usize,
        ) + expert_reads(c, pre, stream, c.n_experts as nat)
    }
}

/// What one layer reads, without the weights of an attention indexer: those are
/// the indexer's own to name and read.
pub open spec fn layer_reads(
    c: Cfg,
    pre: Seq<char>,
    attn: Attn,
    sparse: bool,
    stream: bool,
) -> Seq<(Seq<char>, Form)> {
    attn_reads(c, pre, attn) + ffn_reads(c, pre, sparse, stream) + seq![
        (pre + "input_layernorm.weight"@, norm_form(c, c.hidden)),
        (pre + "post_attention_layernorm.weight"@, norm_form(c, c.hidden)),
    ]
}

/// The attention of layer `i` where `full` may override the schedule.
pub open spec fn attn_kind(c: Cfg, i: int, full: Option<bool>) -> Attn {
    if c.arch == Arch::GlmMla {
        Attn::Mla
    } else if (match full {
        Some(f) => f,
        None => c.arch == Arch::DenseGqa || c.marked_full(i, false),
    }) {
        Attn::Gqa
    } else {
        Attn::Gdn
    }
}

/// Whether layer `i` routes to experts where `sparse` may override it.
pub open spec fn routes(c: Cfg, i: int, sparse: Option<bool>) -> bool {
    match sparse {
        Some(s) => s,
        None => i >= c.first_dense,
    }
}

/// The prefix of layer `i` at a site.
pub open spec fn site_prefix(c: Cfg, i: nat, site: LayerSite) -> Seq<char> {
    match site.prefix {
        Some(p) => p@,
        None => stack_prefix(c, i),
    }
}

fn append_read(reads: &mut Vec<TensorRead>, pre: &str, suffix: &str, form: Form)
    ensures
        listing(final(reads)@) == listing(old(reads)@) + seq![(pre@ + suffix@, form)],
{
    let name = pre.to_owned().concat(suffix);
    reads.push(TensorRead { name, form });
    assert(listing(reads@) =~= listing(old(reads)@) + seq![(pre@ + suffix@, form)]);
}

fn norm(cfg: &Cfg, len: usize) -> (f: Form)
    ensures
        f == norm_form(*cfg, len),
{
    if cfg.arch == Arch::HybridGdn {
        Form::ZeroCentered { len }
    } else {
        Form::Plain { len }
    }
}

fn append_mlp(reads: &mut Vec<TensorRead>, pre: &str, d: usize, inter: usize)
    ensures
        listing(final(reads)@) == listing(old(reads)@) + mlp_reads(pre@, d, inter),
{
    append_read(reads, pre, "gate_proj.weight", Form::Packed { rows: inter, cols: d });
    append_read(reads, pre, "up_proj.weight", Form::Packed { rows: inter, cols: d });
    append_read(reads, pre, "down_proj.weight", Form::Packed { rows: d, cols: inter });
    assert(listing(reads@) =~= listing(old(reads)@) + mlp_reads(pre@, d, inter));
}

fn append_mlp_present(reads: &mut Vec<TensorRead>, pre: &str)
    ensures
        listing(final(reads)@) == listing(old(reads)@) + mlp_present(pre@),
{
    append_read(reads, pre, "gate_proj.weight", Form::Present);
    append_read(reads, pre, "up_proj.weight", Form::Present);
    append_read(reads, pre, "down_proj.weight", Form::Present);
    assert(listing(reads@) =~= listing(old(reads)@) + mlp_present(pre@));
}

fn append_attn(reads: &mut Vec<TensorRead>, c: &Cfg, pre: &str, attn: Attn)
    requires
        shape_fits(*c),
    ensures
        listing(final(reads)@) == listing(old(reads)@) + attn_reads(*c, pre@, attn),
{
    let d: usize = c.hidden;
    match attn {
        Attn::Mla => {
            let (q, h): (usize, usize) = (c.q_lora, c.n_heads);
            append_read(reads, pre, "self_attn.q_a_proj.weight", Form::Packed { rows: q, cols: d });
            append_read(reads, pre, "self_attn.q_a_layernorm.weight", Form::Plain { len: q });
            append_read(
                reads,
                pre,
                "self_attn.q_b_proj.weight",
                Form::Packed { rows: h * c.qk_head, cols: q },
            );
            append_read(
                reads,
                pre,
                "self_attn.kv_a_proj_with_mqa.weight",
                Form::Packed { rows: c.kv_lora + c.qk_rope, cols: d },
            );
            append_read(
                reads,
                pre,
                "self_attn.kv_a_layernorm.weight",
                Form::Plain { len: c.kv_lora },
            );
            append_read(
                reads,
                pre,
                "self_attn.kv_b_proj.weight",
                Form::Packed { rows: h * (c.qk_nope + c.v_head), cols: c.kv_lora },
            );
            append_read(
                reads,
                pre,
                "self_attn.o_proj.weight",
                Form::Packed { rows: d, cols: h * c.v_head },
            );
        },
        Attn::Gqa => {
            let hd: usize = c.head_dim;
            let q_rows: usize = if c.attn_gate { 2 * c.n_heads * hd } else { c.n_heads * hd };
            append_read(reads, pre, "self_attn.q_proj.weight", Form::Packed { rows: q_rows, cols: d });
            append_read(
                reads,
                pre,
                "self_attn.k_proj.weight",
                Form::Packed { rows: c.n_kv_heads * hd, cols: d },
            );
            append_read(
                reads,
                pre,
                "self_attn.v_proj.weight",
                Form::Packed { rows: c.n_kv_heads * hd, cols: d },
            );
            append_read(
                reads,
                pre,
                "self_attn.o_proj.weight",
                Form::Packed { rows: d, cols: c.n_heads * hd },
            );
            append_read(reads, pre, "self_attn.q_norm.weight", norm(c, hd));
            append_read(reads, pre, "self_attn.k_norm.weight", norm(c, hd));
        },
        Attn::Gdn => {
            let vh: usize = c.lin_v_heads;
            assert(0 <= 2 * c.lin_k_heads * c.lin_k_dim) by (nonlinear_arith);
            assert(0 <= c.lin_v_heads * c.lin_v_dim) by (nonlinear_arith);
            let values: usize = vh * c.lin_v_dim;
            let conv: usize = 2 * c.lin_k_heads * c.lin_k_dim + values;
            append_read(
                reads,
                pre,
                "linear_attn.in_proj_qkv.weight",
                Form::Packed { rows: conv, cols: d },
            );
            append_read(
                reads,
                pre,
                "linear_attn.in_proj_z.weight",
                Form::Packed { rows: values, cols: d },
            );
            append_read(reads, pre, "linear_attn.in_proj_a.weight", Form::Packed { rows: vh, cols: d });
            append_read(reads, pre, "linear_attn.in_proj_b.weight", Form::Packed { rows: vh, cols: d });
            append_read(
                reads,
                pre,
                "linear_attn.conv1d.weight",
                Form::Plain { len: conv * c.lin_conv_k },
            );
            append_read(reads, pre, "linear_attn.A_log", Form::Plain { len: vh });
            append_read(reads, pre, "linear_attn.dt_bias", Form::Plain { len: vh });
            append_read(reads, pre, "linear_attn.norm.weight", Form::Plain { len: c.lin_v_dim });
            append_read(
                reads,
                pre,
                "linear_attn.out_proj.weight",
                Form::Packed { rows: d, cols: values },
            );
        },
    }
    assert(listing(reads@) =~= listing(old(reads)@) + attn_reads(*c, pre@, attn));
}

fn append_ffn(reads: &mut Vec<TensorRead>, c: &Cfg, pre: &str, sparse: bool, stream: bool)
    requires
        shape_fits(*c),
    ensures
        listing(final(reads)@) == listing(old(reads)@) + ffn_reads(*c, pre@, sparse, stream),
{
    let ghost start = listing(reads@);
    if !sparse {
        let p = pre.to_owned().concat("mlp.");
        append_mlp(reads, p.as_str(), c.hidden, c.dense_inter);
        return ;
    }
    append_read(reads, pre, "mlp.gate.weight", Form::Plain { len: c.n_experts * c.hidden });
    append_read(
        reads,
        pre,
        "mlp.gate.e_score_correction_bias",
        Form::Plain { len: c.n_experts },
    );
    let p = pre.to_owned().concat("mlp.shared_experts.");
    append_mlp(reads, p.as_str(), c.hidden, c.moe_inter * c.n_shared);
    let ghost head = listing(reads@);
    let mut e: usize = 0;
    assert(head =~= head + expert_reads(*c, pre@, stream, 0));
    while e < c.n_experts
        invariant
            e <= c.n_experts,
            listing(reads@) == head + expert_reads(*c, pre@, stream, e as nat),
        decreases c.n_experts - e,
    {
        let ghost before = listing(reads@);
        let p = pre.to_owned().concat("mlp.experts.").concat(text::decimal_text(e).as_str()).concat(
            ".",
        );
        if stream {
            append_mlp_present(reads, p.as_str());
        } else {
            append_mlp(reads, p.as_str(), c.hidden, c.moe_inter);
        }
        assert(listing(reads@) =~= head + expert_reads(*c, pre@, stream, (e + 1) as nat));
        e = e + 1;
    }
    assert(listing(reads@) =~= start + ffn_reads(*c, pre@, sparse, stream));
}

/// One layer's place in a load.
pub struct LayerPlan {
    /// The attention its weights are for.
    pub attn: Attn,
    /// Whether it routes to experts.
    pub sparse: bool,
    /// What it reads.
    pub reads: Vec<TensorRead>,
}

/// Plans one layer of the main stack, without the weights of an attention
/// indexer.
pub fn load_layer(cfg: &Cfg, i: usize, stream_experts: bool) -> (plan: LayerPlan)
    requires
        shape_fits(*cfg),
    ensures
        plan.attn == attn_kind(*cfg, i as int, None),
        plan.sparse == (i >= cfg.first_dense),
        listing(plan.reads@) == layer_reads(
            *cfg,
            stack_prefix(*cfg, i as nat),
            plan.attn,
            plan.sparse,
            stream_experts,
        ),
{
    load_layer_at(
        cfg,
        i,
        stream_experts,
        &LayerSite { prefix: None, full_attn: None, sparse: None },
    )
}

/// Plans one layer, at a site that may differ from the main stack's schedule.
///
/// A streamed layer leaves its routed experts on disk and only checks that they
/// are there, so a malformed checkpoint fails at load and not mid-decode.
///
/// The plan is without the weights of an attention indexer, which the indexer
/// names and reads itself where a layer has one.
pub fn load_layer_at(cfg: &Cfg, i: usize, stream_experts: bool, site: &LayerSite) -> (plan: LayerPlan)
    requires
        shape_fits(*cfg),
    ensures
        plan.attn == attn_kind(*cfg, i as int, site.full_attn),
        plan.sparse == routes(*cfg, i as int, site.sparse),
        listing(plan.reads@) == layer_reads(
            *cfg,
            site_prefix(*cfg, i as nat, *site),
            plan.attn,
            plan.sparse,
            stream_experts,
        ),
{
    let pre: String = match &site.prefix {
        Some(p) => p.clone(),
        None => layer_prefix(cfg, i),
    };
    let sparse: bool = match site.sparse {
        Some(s) => s,
        None => i >= cfg.first_dense,
    };
    let full: bool = match site.full_attn {
        Some(f) => f,
        None => cfg.arch == Arch::DenseGqa || cfg.full_at(i, false),
    };
    let attn: Attn = if cfg.arch == Arch::GlmMla {
        Attn::Mla
    } else if full {
        Attn::Gqa
    } else {
        Attn::Gdn
    };
    let mut reads: Vec<TensorRead> = Vec::new();
    assert(listing(reads@) =~= Seq::empty());
    append_attn(&mut reads, cfg, pre.as_str(), attn);
    append_ffn(&mut reads, cfg, pre.as_str(), sparse, stream_experts);
    append_read(&mut reads, pre.as_str(), "input_layernorm.weight", norm(cfg, cfg.hidden));
    append_read(
        &mut reads,
        pre.as_str(),
        "post_attention_layernorm.weight",
        norm(cfg, cfg.hidden),
    );
    assert(listing(reads@) =~= layer_reads(*cfg, pre@, attn, sparse, stream_experts));
    LayerPlan { attn, sparse, reads }
}

/// Where a checkpoint keeps its draft head.
#[derive(Clone, Copy, Debug, PartialEq, Eq, Structural)]
pub enum HeadSite {
    /// There is none.
    Absent,
    /// As one more layer of the main stack.
    Stack,
    /// Under a prefix of its own, its layer dense and attending in full.
    Own,
}

/// The tensor whose presence says that the draft head is a layer of the stack.
pub open spec fn stack_head_tensor(n_layers: nat) -> Seq<char> {
    "model.layers."@ + text::decimal(n_layers) + "."@ + "eh_proj.weight"@
}

/// Names the tensor whose presence says that the draft head is a layer of the
/// stack.
pub fn stack_head_name(cfg: &Cfg) -> (name: String)
    ensures
        name@ == stack_head_tensor(cfg.n_layers as nat),
{
    "model.layers.".to_owned().concat(text::decimal_text(cfg.n_layers).as_str()).concat(".").concat(
        "eh_proj.weight",
    )
}

/// Decides where the draft head is: `in_stack` tells whether the container has
/// the stack's head tensor, `own` whether it has `mtp.fc.weight`.
pub fn head_site(in_stack: bool, own: bool) -> (site: HeadSite)
    ensures
        site == if in_stack {
            HeadSite::Stack
        } else if own {
            HeadSite::Own
        } else {
            HeadSite::Absent
        },
{
    if in_stack {
        HeadSite::Stack
    } else if own {
        HeadSite::Own
    } else {
        HeadSite::Absent
    }
}

/// Everything the draft head reads.
pub open spec fn head_reads(c: Cfg, site: HeadSite, stream: bool) -> Seq<(Seq<char>, Form)> {
    let d = c.hidden;
    let n = c.n_layers as nat;
    let fused = Form::Packed { rows: d, cols: (2 * d) as usize };
    match site {
        HeadSite::Absent => Seq::empty(),
        HeadSite::Stack => {
            let pre = "model.layers."@ + text::decimal(n) + "."@;
            layer_reads(
                c,
                stack_prefix(c, n),
                attn_kind(c, n as int, None),
                routes(c, n as int, None),
                stream,
            ) + seq![
                (pre + "eh_proj.weight"@, fused),
                (pre + "enorm.weight"@, Form::Plain { len: d }),
                (pre + "hnorm.weight"@, Form::Plain { len: d }),
                (pre + "shared_head.norm.weight"@, Form::Plain { len: d }),
            ]
        },
        HeadSite::Own => layer_reads(
            c,
            "mtp.layers.0."@,
            attn_kind(c, n as int, Some(true)),
            false,
            stream,
        ) + seq![
            ("mtp."@ + "fc.weight"@, fused),
            ("mtp."@ + "pre_fc_norm_embedding.weight"@, norm_form(c, d)),
            ("mtp."@ + "pre_fc_norm_hidden.weight"@, norm_form(c, d)),
            ("mtp."@ + "norm.weight"@, norm_form(c, d)),
        ],
    }
}

/// The embedding, the output head and the final norm.
pub open spec fn trunk_reads(c: Cfg) -> Seq<(Seq<char>, Form)> {
    let pre = trunk_prefix(c);
    let table = Form::Packed { rows: c.vocab, cols: c.hidden };
    seq![
        (pre + "embed_tokens.weight"@, table),
        (""@ + "lm_head.weight"@, table),
        (pre + "norm.weight"@, norm_form(c, c.hidden)),
    ]
}

/// The prefix of the tensors outside the layers.
pub open spec fn trunk_prefix(c: Cfg) -> Seq<char> {
    if c.arch == Arch::HybridGdn {
        "model.language_model."@
    } else {
        "model."@
    }
}

/// What the first `n` layers of the stack read.
pub open spec fn stack_reads(c: Cfg, stream: bool, n: nat) -> Seq<(Seq<char>, Form)>
    decreases n,
{
    if n == 0 {
        Seq::empty()
    } else {
        let i = (n - 1) as nat;
        stack_reads(c, stream, i) + layer_reads(
            c,
            stack_prefix(c, i),
            attn_kind(c, i as int, None),
            routes(c, i as int, None),
            stream,
        )
    }
}

/// What a load reads of every model of this shape, in order: the trunk, the
/// stack, the draft head. An indexer's weights, which a container may or may not
/// carry, are not listed.
pub open spec fn model_reads(c: Cfg, site: HeadSite, stream: bool) -> Seq<(Seq<char>, Form)> {
    trunk_reads(c) + stack_reads(c, stream, c.n_layers as nat) + head_reads(c, site, stream)
}

fn append_all(reads: &mut Vec<TensorRead>, more: Vec<TensorRead>)
    ensures
        listing(final(reads)@) == listing(old(reads)@) + listing(more@),
{
    let mut rest = more;
    reads.append(&mut rest);
    assert(listing(reads@) =~= listing(old(reads)@) + listing(more@));
}

/// Plans the draft head.
pub fn load_head(cfg: &Cfg, site: HeadSite, stream_experts: bool) -> (reads: Vec<TensorRead>)
    requires
        shape_fits(*cfg),
    ensures
        listing(reads@) == head_reads(*cfg, site, stream_experts),
{
    let d: usize = cfg.hidden;
    match site {
        HeadSite::Absent => {
            let reads: Vec<TensorRead> = Vec::new();
            assert(listing(reads@) =~= Seq::empty());
            reads
        },
        HeadSite::Stack => {
            let plan = load_layer(cfg, cfg.n_layers, stream_experts);
            let mut reads = plan.reads;
            let pre = "model.layers.".to_owned().concat(
                text::decimal_text(cfg.n_layers).as_str(),
            ).concat(".");
            append_read(
                &mut reads,
                pre.as_str(),
                "eh_proj.weight",
                Form::Packed { rows: d, cols: 2 * d },
            );
            append_read(&mut reads, pre.as_str(), "enorm.weight", Form::Plain { len: d });
            append_read(&mut reads, pre.as_str(), "hnorm.weight", Form::Plain { len: d });
            append_read(
                &mut reads,
                pre.as_str(),
                "shared_head.norm.weight",
                Form::Plain { len: d },
            );
            assert(listing(reads@) =~= head_reads(*cfg, site, stream_experts));
            reads
        },
        HeadSite::Own => {
            let at = LayerSite {
                prefix: Some("mtp.layers.0.".to_owned()),
                full_attn: Some(true),
                sparse: Some(false),
            };
            let plan = load_layer_at(cfg, cfg.n_layers, stream_experts, &at);
            let mut reads = plan.reads;
            append_read(&mut reads, "mtp.", "fc.weight", Form::Packed { rows: d, cols: 2 * d });
            append_read(&mut reads, "mtp.", "pre_fc_norm_embedding.weight", norm(cfg, d));
            append_read(&mut reads, "mtp.", "pre_fc_norm_hidden.weight", norm(cfg, d));
            append_read(&mut reads, "mtp.", "norm.weight", norm(cfg, d));
            assert(listing(reads@) =~= head_reads(*cfg, site, stream_experts));
            reads
        },
    }
}

/// Plans what a load reads of every model of this shape: the trunk, every layer
/// of the stack, the draft head.
pub fn load_plan(cfg: &Cfg, site: HeadSite, stream_experts: bool) -> (reads: Vec<TensorRead>)
    requires
        shape_fits(*cfg),
    ensures
        listing(reads@) == model_reads(*cfg, site, stream_experts),
{
    let mut reads: Vec<TensorRead> = Vec::new();
    assert(listing(reads@) =~= Seq::empty());
    let pre: &str = if cfg.arch == Arch::HybridGdn {
        "model.language_model."
    } else {
        "model."
    };
    let table = Form::Packed { rows: cfg.vocab, cols: cfg.hidden };
    append_read(&mut reads, pre, "embed_tokens.weight", table);
    append_read(&mut reads, "", "lm_head.weight", table);
    append_read(&mut reads, pre, "norm.weight", norm(cfg, cfg.hidden));
    assert(listing(reads@) =~= trunk_reads(*cfg) + stack_reads(*cfg, stream_experts, 0));
    let mut i: usize = 0;
    while i < cfg.n_layers
        invariant
            shape_fits(*cfg),
            i <= cfg.n_layers,
            listing(reads@) == trunk_reads(*cfg) + stack_reads(*cfg, stream_experts, i as nat),
        decreases cfg.n_layers - i,
    {
        let plan = load_layer(cfg, i, stream_experts);
        append_all(&mut reads, plan.reads);
        i = i + 1;
        assert(listing(reads@) =~= trunk_reads(*cfg) + stack_reads(
            *cfg,
            stream_experts,
            i as nat,
        ));
    }
    let head = load_head(cfg, site, stream_experts);
    append_all(&mut reads, head);
    reads
}

/// The elements of a vector, whichever way it is stored.
pub open spec fn len_of(f: Form) -> int {
    match f {
        Form::Plain { len } => len as int,
        Form::ZeroCentered { len } => len as int,
        _ => -1,
    }
}

/// A gated feed-forward composes: gate and up take the model's width to the same
/// inner width, and down takes that inner width back to the model's. The three
/// are told apart by name and read in this order.
pub proof fn lemma_feed_forward_composes(pre: Seq<char>, d: usize, inter: usize)
    ensures
        ({
            let r = mlp_reads(pre, d, inter);
            &&& r.len() == 3
            &&& r[0].1 is Packed && r[1].1 is Packed && r[2].1 is Packed
            &&& r[0].1->cols == d && r[1].1->cols == d
            &&& r[0].1->rows == inter && r[1].1->rows == inter
            &&& r[2].1->cols == r[0].1->rows
            &&& r[2].1->rows == d
            &&& r[0].0 == pre + "gate_proj.weight"@
            &&& r[1].0 == pre + "up_proj.weight"@
            &&& r[2].0 == pre + "down_proj.weight"@
            &&& names(mlp_present(pre)) == names(r)
            &&& forall|i: int| 0 <= i < 3 ==> (#[trigger] mlp_present(pre)[i]).1 == Form::Present
        }),
{
    assert(names(mlp_present(pre)) =~= names(mlp_reads(pre, d, inter)));
}

/// Latent attention composes: the query's down-projection, norm and up-projection
/// meet at one width, the key and value's latent at another, both start from the
/// model's width, and the output projection takes every head's values back to it.
/// A query head is as wide as the config says, and a key-value head holds a
/// position-free key beside its value.
pub proof fn lemma_latent_attention_composes(c: Cfg, pre: Seq<char>)
    requires
        shape_fits(c),
    ensures
        ({
            let r = attn_reads(c, pre, Attn::Mla);
            let (q_a, q_norm, q_b, kv_a, kv_norm, kv_b, o) = (
                r[0].1,
                r[1].1,
                r[2].1,
                r[3].1,
                r[4].1,
                r[5].1,
                r[6].1,
            );
            &&& r.len() == 7
            &&& q_a is Packed && q_b is Packed && kv_a is Packed && kv_b is Packed && o is Packed
            &&& q_norm is Plain && kv_norm is Plain
            &&& q_a->cols == c.hidden && kv_a->cols == c.hidden && o->rows == c.hidden
            &&& q_a->rows == c.q_lora
            &&& q_b->cols == q_a->rows && len_of(q_norm) == q_a->rows
            &&& kv_b->cols == c.kv_lora && len_of(kv_norm) == kv_b->cols
            &&& kv_a->rows == kv_b->cols + c.qk_rope
            &&& q_b->rows == c.n_heads * c.qk_head
            &&& o->cols == c.n_heads * c.v_head
            &&& kv_b->rows == o->cols + c.n_heads * c.qk_nope
            &&& r[0].0 == pre + "self_attn.q_a_proj.weight"@
            &&& r[1].0 == pre + "self_attn.q_a_layernorm.weight"@
            &&& r[2].0 == pre + "self_attn.q_b_proj.weight"@
            &&& r[3].0 == pre + "self_attn.kv_a_proj_with_mqa.weight"@
            &&& r[4].0 == pre + "self_attn.kv_a_layernorm.weight"@
            &&& r[5].0 == pre + "self_attn.kv_b_proj.weight"@
            &&& r[6].0 == pre + "self_attn.o_proj.weight"@
        }),
{
    assert(c.n_heads * (c.qk_nope + c.v_head) == c.n_heads * c.v_head + c.n_heads * c.qk_nope)
        by (nonlinear_arith);
    assert(c.n_heads * c.qk_head >= 0 && c.n_heads * c.v_head >= 0 && c.n_heads * (c.qk_nope
        + c.v_head) >= 0) by (nonlinear_arith);
}

/// Grouped-query attention composes: queries, keys and values start from the
/// model's width, keys and values are as wide as each other, and the output
/// projection takes the query heads back to the model's width. A gated query
/// carries its gate beside it and is twice as wide. Each head's norm is as wide as
/// a head.
pub proof fn lemma_grouped_attention_composes(c: Cfg, pre: Seq<char>)
    requires
        shape_fits(c),
    ensures
        ({
            let r = attn_reads(c, pre, Attn::Gqa);
            let (q, k, v, o) = (r[0].1, r[1].1, r[2].1, r[3].1);
            &&& r.len() == 6
            &&& q is Packed && k is Packed && v is Packed && o is Packed
            &&& q->cols == c.hidden && k->cols == c.hidden && v->cols == c.hidden
            &&& o->rows == c.hidden
            &&& k->rows == c.n_kv_heads * c.head_dim && v->rows == k->rows
            &&& o->cols == c.n_heads * c.head_dim
            &&& q->rows == if c.attn_gate {
                2 * o->cols
            } else {
                o->cols as int
            }
            &&& len_of(r[4].1) == c.head_dim && len_of(r[5].1) == c.head_dim
            &&& r[4].1 is ZeroCentered <==> c.arch == Arch::HybridGdn
            &&& r[5].1 is ZeroCentered <==> c.arch == Arch::HybridGdn
            &&& r[0].0 == pre + "self_attn.q_proj.weight"@
            &&& r[1].0 == pre + "self_attn.k_proj.weight"@
            &&& r[2].0 == pre + "self_attn.v_proj.weight"@
            &&& r[3].0 == pre + "self_attn.o_proj.weight"@
            &&& r[4].0 == pre + "self_attn.q_norm.weight"@
            &&& r[5].0 == pre + "self_attn.k_norm.weight"@
        }),
{
    assert(2 * c.n_heads * c.head_dim == 2 * (c.n_heads * c.head_dim)) by (nonlinear_arith);
    assert(c.n_heads * c.head_dim >= 0 && c.n_kv_heads * c.head_dim >= 0) by (nonlinear_arith);
}

/// Gated linear attention composes: everything starts from the model's width, the
/// fused projection holds a key twice over and the values, the convolution covers
/// it channel by channel, the gating matrix is as wide as the values, and the output
/// projection takes the values back to the model's width. What a head has one of,
/// there is one per value head.
pub proof fn lemma_linear_attention_composes(c: Cfg, pre: Seq<char>)
    requires
        shape_fits(c),
    ensures
        ({
            let r = attn_reads(c, pre, Attn::Gdn);
            let (qkv, z, a, b, out) = (r[0].1, r[1].1, r[2].1, r[3].1, r[8].1);
            &&& r.len() == 9
            &&& qkv is Packed && z is Packed && a is Packed && b is Packed && out is Packed
            &&& qkv->cols == c.hidden && z->cols == c.hidden && a->cols == c.hidden
                && b->cols == c.hidden
            &&& out->rows == c.hidden
            &&& z->rows == c.lin_v_heads * c.lin_v_dim
            &&& out->cols == z->rows
            &&& qkv->rows == z->rows + 2 * (c.lin_k_heads * c.lin_k_dim)
            &&& len_of(r[4].1) == qkv->rows * c.lin_conv_k
            &&& a->rows == c.lin_v_heads && b->rows == a->rows
            &&& len_of(r[5].1) == a->rows && len_of(r[6].1) == a->rows
            &&& a->rows * len_of(r[7].1) == z->rows
            &&& len_of(r[7].1) == c.lin_v_dim
            &&& r[4].1 is Plain && r[5].1 is Plain && r[6].1 is Plain && r[7].1 is Plain
            &&& r[0].0 == pre + "linear_attn.in_proj_qkv.weight"@
            &&& r[1].0 == pre + "linear_attn.in_proj_z.weight"@
            &&& r[2].0 == pre + "linear_attn.in_proj_a.weight"@
            &&& r[3].0 == pre + "linear_attn.in_proj_b.weight"@
            &&& r[4].0 == pre + "linear_attn.conv1d.weight"@
            &&& r[5].0 == pre + "linear_attn.A_log"@
            &&& r[6].0 == pre + "linear_attn.dt_bias"@
            &&& r[7].0 == pre + "linear_attn.norm.weight"@
            &&& r[8].0 == pre + "linear_attn.out_proj.weight"@
        }),
{
    let values = c.lin_v_heads * c.lin_v_dim;
    let keys = 2 * c.lin_k_heads * c.lin_k_dim;
    assert(keys == 2 * (c.lin_k_heads * c.lin_k_dim)) by (nonlinear_arith)
        requires
            keys == 2 * c.lin_k_heads * c.lin_k_dim,
    ;
    assert(values >= 0) by (nonlinear_arith)
        requires
            values == c.lin_v_heads * c.lin_v_dim,
    ;
    assert(keys >= 0) by (nonlinear_arith)
        requires
            keys == 2 * c.lin_k_heads * c.lin_k_dim,
    ;
    assert((keys + values) * c.lin_conv_k >= 0) by (nonlinear_arith)
        requires
            keys + values >= 0,
    ;
}

proof fn lemma_expert_block(c: Cfg, pre: Seq<char>, stream: bool, n: nat, e: int)
    requires
        0 <= e < n,
    ensures
        expert_reads(c, pre, stream, n).len() == 3 * n,
        expert_reads(c, pre, stream, n).subrange(3 * e, 3 * e + 3) == if stream {
            mlp_present(expert_prefix(pre, e as nat))
        } else {
            mlp_reads(expert_prefix(pre, e as nat), c.hidden, c.moe_inter)
        },
    decreases n,
{
    let m = (n - 1) as nat;
    let init = expert_reads(c, pre, stream, m);
    let all = expert_reads(c, pre, stream, n);
    assert(expert_reads(c, pre, stream, 0).len() == 0);
    if m > 0 {
        lemma_expert_block(
            c,
            pre,
            stream,
            m,
            if e < m {
                e
            } else {
                0
            },
        );
    }
    if e < m {
        assert(all.subrange(3 * e, 3 * e + 3) =~= init.subrange(3 * e, 3 * e + 3));
    } else {
        assert(all.subrange(3 * e, 3 * e + 3) =~= if stream {
            mlp_present(expert_prefix(pre, m))
        } else {
            mlp_reads(expert_prefix(pre, m), c.hidden, c.moe_inter)
        });
    }
}

/// A dense layer has one feed-forward, of the dense inner width.
pub proof fn lemma_dense_layer_has_one_feed_forward(c: Cfg, pre: Seq<char>, stream: bool)
    ensures
        ({
            let r = ffn_reads(c, pre, false, stream);
            &&& r.len() == 3
            &&& r[0].1->cols == c.hidden && r[1].1->cols == c.hidden
            &&& r[0].1->rows == c.dense_inter && r[1].1->rows == c.dense_inter
            &&& r[2].1->cols == c.dense_inter && r[2].1->rows == c.hidden
            &&& r[0].0 == pre + "mlp."@ + "gate_proj.weight"@
            &&& r[1].0 == pre + "mlp."@ + "up_proj.weight"@
            &&& r[2].0 == pre + "mlp."@ + "down_proj.weight"@
        }),
{
}

/// A routed layer has a router row and a bias per expert, one shared block as wide
/// as all its shared experts together, and every routed expert in turn: each of
/// the routed inner width where it is held, each only checked for where experts
/// are streamed.
pub proof fn lemma_routed_layer_has_every_expert(c: Cfg, pre: Seq<char>, stream: bool, e: int)
    requires
        shape_fits(c),
        0 <= e < c.n_experts,
    ensures
        ({
            let r = ffn_reads(c, pre, true, stream);
            let at = 5 + 3 * e;
            let name = pre + "mlp.experts."@ + text::decimal(e as nat) + "."@;
            &&& r.len() == 5 + 3 * c.n_experts
            &&& r[0] == (
                pre + "mlp.gate.weight"@,
                Form::Plain { len: (c.n_experts * c.hidden) as usize },
            )
            &&& len_of(r[0].1) == len_of(r[1].1) * c.hidden
            &&& r[1].0 == pre + "mlp.gate.e_score_correction_bias"@
            &&& len_of(r[1].1) == c.n_experts
            &&& r[2].1->cols == c.hidden && r[3].1->cols == c.hidden
            &&& r[2].1->rows == c.moe_inter * c.n_shared && r[3].1->rows == r[2].1->rows
            &&& r[4].1->cols == r[2].1->rows && r[4].1->rows == c.hidden
            &&& r[2].0 == pre + "mlp.shared_experts."@ + "gate_proj.weight"@
            &&& r[3].0 == pre + "mlp.shared_experts."@ + "up_proj.weight"@
            &&& r[4].0 == pre + "mlp.shared_experts."@ + "down_proj.weight"@
            &&& r[at].0 == name + "gate_proj.weight"@
            &&& r[at + 1].0 == name + "up_proj.weight"@
            &&& r[at + 2].0 == name + "down_proj.weight"@
            &&& stream ==> r[at].1 == Form::Present && r[at + 1].1 == Form::Present && r[at + 2].1
                == Form::Present
            &&& !stream ==> {
                &&& r[at].1 is Packed && r[at + 1].1 is Packed && r[at + 2].1 is Packed
                &&& r[at].1->cols == c.hidden && r[at + 1].1->cols == c.hidden
                &&& r[at].1->rows == c.moe_inter && r[at + 1].1->rows == c.moe_inter
                &&& r[at + 2].1->cols == c.moe_inter && r[at + 2].1->rows == c.hidden
            }
        }),
{
    let r = ffn_reads(c, pre, true, stream);
    let experts = expert_reads(c, pre, stream, c.n_experts as nat);
    lemma_expert_block(c, pre, stream, c.n_experts as nat, e);
    let block = experts.subrange(3 * e, 3 * e + 3);
    assert(c.n_experts * c.hidden >= 0 && c.moe_inter * c.n_shared >= 0) by (nonlinear_arith);
    assert(r[5 + 3 * e] == experts[3 * e] && experts[3 * e] == block[0]);
    assert(r[5 + 3 * e + 1] == experts[3 * e + 1] && experts[3 * e + 1] == block[1]);
    assert(r[5 + 3 * e + 2] == experts[3 * e + 2] && experts[3 * e + 2] == block[2]);
}

/// A layer reads its attention, its feed-forward and its two norms, in this order
/// and nothing else; the norms are as wide as the model.
pub proof fn lemma_layer_reads_by_part(
    c: Cfg,
    pre: Seq<char>,
    attn: Attn,
    sparse: bool,
    stream: bool,
)
    ensures
        ({
            let r = layer_reads(c, pre, attn, sparse, stream);
            let (a, f) = (attn_reads(c, pre, attn), ffn_reads(c, pre, sparse, stream));
            let n = (a.len() + f.len()) as int;
            &&& r.len() == n + 2
            &&& r.take(a.len() as int) == a
            &&& r.subrange(a.len() as int, n) == f
            &&& r[n].0 == pre + "input_layernorm.weight"@ && len_of(r[n].1) == c.hidden
            &&& r[n + 1].0 == pre + "post_attention_layernorm.weight"@ && len_of(r[n + 1].1)
                == c.hidden
            &&& r[n].1 is ZeroCentered <==> c.arch == Arch::HybridGdn
            &&& r[n + 1].1 is ZeroCentered <==> c.arch == Arch::HybridGdn
        }),
{
    let r = layer_reads(c, pre, attn, sparse, stream);
    let (a, f) = (attn_reads(c, pre, attn), ffn_reads(c, pre, sparse, stream));
    assert(r.take(a.len() as int) =~= a);
    assert(r.subrange(a.len() as int, (a.len() + f.len()) as int) =~= f);
}

/// Which attention a layer of the stack has follows from the model's family alone,
/// but for the hybrid one, whose schedule marks the layers that attend in full; a
/// site may say otherwise, and in the latent family cannot. A layer routes from
/// the first sparse one on, unless its site says otherwise.
pub proof fn lemma_layer_kind(c: Cfg, i: int, full: Option<bool>, sparse: Option<bool>)
    ensures
        c.arch == Arch::GlmMla <==> attn_kind(c, i, full) == Attn::Mla,
        c.arch == Arch::DenseGqa ==> attn_kind(c, i, None) == Attn::Gqa,
        c.arch == Arch::HybridGdn && 0 <= i < c.full_attn@.len() ==> (attn_kind(c, i, None)
            == Attn::Gqa <==> c.full_attn@[i]),
        c.arch != Arch::GlmMla && full is Some ==> (attn_kind(c, i, full) == Attn::Gqa <==> full->0),
        sparse is Some ==> routes(c, i, sparse) == sparse->0,
        routes(c, i, None) <==> i >= c.first_dense,
{
}

/// The trunk's tables have a row per token and a column per value of the model's
/// width, so the output head takes a hidden row to one number per token.
pub proof fn lemma_trunk_composes(c: Cfg)
    ensures
        ({
            let r = trunk_reads(c);
            let pre = if c.arch == Arch::HybridGdn {
                "model.language_model."@
            } else {
                "model."@
            };
            &&& r.len() == 3
            &&& r[0].0 == pre + "embed_tokens.weight"@
            &&& r[1].0 == ""@ + "lm_head.weight"@
            &&& r[2].0 == pre + "norm.weight"@
            &&& r[0].1->rows == c.vocab && r[0].1->cols == c.hidden
            &&& r[1].1->rows == c.vocab && r[1].1->cols == c.hidden
            &&& r[0].1 is Packed && r[1].1 is Packed
            &&& len_of(r[2].1) == c.hidden
            &&& r[2].1 is ZeroCentered <==> c.arch == Arch::HybridGdn
        }),
{
}

/// A draft head joins an embedding and a hidden row, each of the model's width and
/// each with a norm of its own, back to one row of that width, and ends in a norm.
/// These four come after the head's own layer.
pub proof fn lemma_draft_head_composes(c: Cfg, site: HeadSite, stream: bool)
    requires
        shape_fits(c),
        site != HeadSite::Absent,
    ensures
        ({
            let r = head_reads(c, site, stream);
            let n = r.len() - 4;
            &&& n >= 0
            &&& r[n].1 is Packed
            &&& r[n].1->rows == c.hidden && r[n].1->cols == 2 * c.hidden
            &&& len_of(r[n + 1].1) == c.hidden && len_of(r[n + 2].1) == c.hidden && len_of(
                r[n + 3].1,
            ) == c.hidden
            &&& site == HeadSite::Stack ==> r.take(n) == layer_reads(
                c,
                stack_prefix(c, c.n_layers as nat),
                attn_kind(c, c.n_layers as int, None),
                c.n_layers >= c.first_dense,
                stream,
            )
            &&& site == HeadSite::Stack ==> r[n].0 == stack_head_tensor(c.n_layers as nat)
            &&& site == HeadSite::Own ==> r.take(n) == layer_reads(
                c,
                "mtp.layers.0."@,
                attn_kind(c, c.n_layers as int, Some(true)),
                false,
                stream,
            )
            &&& site == HeadSite::Own ==> r[n].0 == "mtp."@ + "fc.weight"@
        }),
        head_reads(c, HeadSite::Absent, stream).len() == 0,
{
    let r = head_reads(c, site, stream);
    let n = r.len() - 4;
    let layer = if site == HeadSite::Stack {
        layer_reads(
            c,
            stack_prefix(c, c.n_layers as nat),
            attn_kind(c, c.n_layers as int, None),
            routes(c, c.n_layers as int, None),
            stream,
        )
    } else {
        layer_reads(
            c,
            "mtp.layers.0."@,
            attn_kind(c, c.n_layers as int, Some(true)),
            false,
            stream,
        )
    };
    assert(r.take(n) =~= layer);
}

/// How many tensors the first `i` layers of the stack read.
pub open spec fn reads_before(c: Cfg, stream: bool, i: nat) -> nat {
    stack_reads(c, stream, i).len()
}

/// The stack is read layer by layer: layer `i` stands whole, under its own prefix,
/// behind all that the layers before it read, with its own attention and its own
/// kind of feed-forward.
pub proof fn lemma_stack_reads_every_layer(c: Cfg, stream: bool, n: nat, i: nat)
    requires
        i < n,
    ensures
        reads_before(c, stream, i) <= reads_before(c, stream, i + 1) <= stack_reads(
            c,
            stream,
            n,
        ).len(),
        stack_reads(c, stream, n).subrange(
            reads_before(c, stream, i) as int,
            reads_before(c, stream, i + 1) as int,
        ) == layer_reads(
            c,
            stack_prefix(c, i),
            attn_kind(c, i as int, None),
            i >= c.first_dense,
            stream,
        ),
    decreases n,
{
    let m = (n - 1) as nat;
    let all = stack_reads(c, stream, n);
    let init = stack_reads(c, stream, m);
    let (a, b) = (reads_before(c, stream, i) as int, reads_before(c, stream, i + 1) as int);
    if i < m {
        lemma_stack_reads_every_layer(c, stream, m, i);
        assert(all.subrange(a, b) =~= init.subrange(a, b));
    } else {
        assert(all.subrange(a, b) =~= layer_reads(
            c,
            stack_prefix(c, m),
            attn_kind(c, m as int, None),
            routes(c, m as int, None),
            stream,
        ));
    }
}

/// A load reads the trunk, then the stack, then the draft head.
pub proof fn lemma_load_order(c: Cfg, site: HeadSite, stream: bool)
    ensures
        ({
            let r = model_reads(c, site, stream);
            let n = stack_reads(c, stream, c.n_layers as nat).len() as int;
            &&& r.take(3) == trunk_reads(c)
            &&& r.subrange(3, 3 + n) == stack_reads(c, stream, c.n_layers as nat)
            &&& r.skip(3 + n) == head_reads(c, site, stream)
        }),
{
    let r = model_reads(c, site, stream);
    let n = stack_reads(c, stream, c.n_layers as nat).len() as int;
    assert(r.take(3) =~= trunk_reads(c));
    assert(r.subrange(3, 3 + n) =~= stack_reads(c, stream, c.n_layers as nat));
    assert(r.skip(3 + n) =~= head_reads(c, site, stream));
}

/// No two layers of the stack share a prefix, so no tensor is read for two layers.
pub proof fn lemma_layers_have_their_own_prefix(c: Cfg, i: nat, j: nat)
    requires
        stack_prefix(c, i) == stack_prefix(c, j),
    ensures
        i == j,
{
    let lead = if c.arch == Arch::HybridGdn {
        "model.language_model.layers."@
    } else {
        "model.layers."@
    };
    lemma_numbered(lead, i, j);
}

/// No two experts of a layer share a prefix.
pub proof fn lemma_experts_have_their_own_prefix(pre: Seq<char>, e: nat, f: nat)
    requires
        expert_prefix(pre, e) == expert_prefix(pre, f),
    ensures
        e == f,
{
    lemma_numbered(pre + "mlp.experts."@, e, f);
}

proof fn lemma_numbered(lead: Seq<char>, i: nat, j: nat)
    requires
        lead + text::decimal(i) + "."@ == lead + text::decimal(j) + "."@,
    ensures
        i == j,
{
    let (a, b) = (lead + text::decimal(i) + "."@, lead + text::decimal(j) + "."@);
    let n = lead.len() as int;
    let dot = "."@.len() as int;
    assert(text::decimal(i) =~= a.subrange(n, a.len() - dot));
    assert(text::decimal(j) =~= b.subrange(n, b.len() - dot));
    text::lemma_decimal_reads_back(i);
    text::lemma_decimal_reads_back(j);
}

/// The names a load mentions.
pub open spec fn names(reads: Seq<(Seq<char>, Form)>) -> Seq<Seq<char>> {
    Seq::new(reads.len(), |i: int| reads[i].0)
}

/// What a load holds in memory: everything but what it only checks for.
pub open spec fn holds(reads: Seq<(Seq<char>, Form)>, i: int) -> bool {
    0 <= i < reads.len() && reads[i].1 != Form::Present
}

proof fn lemma_names_add(a: Seq<(Seq<char>, Form)>, b: Seq<(Seq<char>, Form)>)
    ensures
        names(a + b) == names(a) + names(b),
{
    assert(names(a + b) =~= names(a) + names(b));
}

proof fn lemma_expert_names(c: Cfg, pre: Seq<char>, n: nat)
    ensures
        names(expert_reads(c, pre, true, n)) == names(expert_reads(c, pre, false, n)),
    decreases n,
{
    if n > 0 {
        let e = (n - 1) as nat;
        lemma_expert_names(c, pre, e);
        let p = expert_prefix(pre, e);
        let read = mlp_reads(p, c.hidden, c.moe_inter);
        lemma_names_add(expert_reads(c, pre, true, e), mlp_present(p));
        lemma_names_add(expert_reads(c, pre, false, e), read);
        assert(names(mlp_present(p)) =~= names(read));
    }
}

proof fn lemma_layer_names(c: Cfg, pre: Seq<char>, attn: Attn, sparse: bool)
    ensures
        names(layer_reads(c, pre, attn, sparse, true)) == names(
            layer_reads(c, pre, attn, sparse, false),
        ),
{
    let norms = seq![
        (pre + "input_layernorm.weight"@, norm_form(c, c.hidden)),
        (pre + "post_attention_layernorm.weight"@, norm_form(c, c.hidden)),
    ];
    let a = attn_reads(c, pre, attn);
    let on = ffn_reads(c, pre, sparse, true);
    let off = ffn_reads(c, pre, sparse, false);
    if sparse {
        let n = c.n_experts as nat;
        let head = seq![
            (pre + "mlp.gate.weight"@, Form::Plain { len: (c.n_experts * c.hidden) as usize }),
            (pre + "mlp.gate.e_score_correction_bias"@, Form::Plain { len: c.n_experts }),
        ] + mlp_reads(
            pre + "mlp.shared_experts."@,
            c.hidden,
            (c.moe_inter * c.n_shared) as usize,
        );
        lemma_expert_names(c, pre, n);
        lemma_names_add(head, expert_reads(c, pre, true, n));
        lemma_names_add(head, expert_reads(c, pre, false, n));
        assert(on =~= head + expert_reads(c, pre, true, n));
        assert(off =~= head + expert_reads(c, pre, false, n));
    }
    lemma_names_add(a, on);
    lemma_names_add(a, off);
    lemma_names_add(a + on, norms);
    lemma_names_add(a + off, norms);
}

proof fn lemma_stack_names(c: Cfg, n: nat)
    ensures
        names(stack_reads(c, true, n)) == names(stack_reads(c, false, n)),
    decreases n,
{
    if n > 0 {
        let i = (n - 1) as nat;
        let (pre, attn, sparse) = (
            stack_prefix(c, i),
            attn_kind(c, i as int, None),
            routes(c, i as int, None),
        );
        lemma_stack_names(c, i);
        lemma_layer_names(c, pre, attn, sparse);
        lemma_names_add(stack_reads(c, true, i), layer_reads(c, pre, attn, sparse, true));
        lemma_names_add(stack_reads(c, false, i), layer_reads(c, pre, attn, sparse, false));
    }
}

/// Streaming and resident loads demand the same tensors: whatever is missing
/// from a checkpoint is missed at load in either mode.
pub proof fn lemma_modes_demand_the_same_tensors(c: Cfg, site: HeadSite)
    ensures
        names(model_reads(c, site, true)) == names(model_reads(c, site, false)),
{
    lemma_stack_names(c, c.n_layers as nat);
    let n = c.n_layers as nat;
    let on = stack_reads(c, true, n);
    let off = stack_reads(c, false, n);
    lemma_names_add(trunk_reads(c), on);
    lemma_names_add(trunk_reads(c), off);
    let head_on = head_reads(c, site, true);
    let head_off = head_reads(c, site, false);
    lemma_names_add(trunk_reads(c) + on, head_on);
    lemma_names_add(trunk_reads(c) + off, head_off);
    match site {
        HeadSite::Absent => {},
        HeadSite::Stack => {
            let (pre, attn, sparse) = (
                stack_prefix(c, n),
                attn_kind(c, n as int, None),
                routes(c, n as int, None),
            );
            lemma_layer_names(c, pre, attn, sparse);
            let a = layer_reads(c, pre, attn, sparse, true);
            let b = layer_reads(c, pre, attn, sparse, false);
            lemma_names_add(a, head_on.subrange(a.len() as int, head_on.len() as int));
            lemma_names_add(b, head_off.subrange(b.len() as int, head_off.len() as int));
            assert(head_on =~= a + head_on.subrange(a.len() as int, head_on.len() as int));
            assert(head_off =~= b + head_off.subrange(b.len() as int, head_off.len() as int));
            assert(names(a).len() == names(b).len());
            assert(head_on.subrange(a.len() as int, head_on.len() as int) =~= head_off.subrange(
                b.len() as int,
                head_off.len() as int,
            ));
        },
        HeadSite::Own => {
            let attn = attn_kind(c, n as int, Some(true));
            let pre = "mtp.layers.0."@;
            lemma_layer_names(c, pre, attn, false);
            let a = layer_reads(c, pre, attn, false, true);
            let b = layer_reads(c, pre, attn, false, false);
            assert(a == b);
        },
    }
}

/// A resident load checks for nothing without reading it.
pub proof fn lemma_resident_load_reads_everything(c: Cfg, pre: Seq<char>, n: nat, i: int)
    requires
        0 <= i < expert_reads(c, pre, false, n).len(),
    ensures
        holds(expert_reads(c, pre, false, n), i),
    decreases n,
{
    let e = (n - 1) as nat;
    let init = expert_reads(c, pre, false, e);
    if i < init.len() {
        lemma_resident_load_reads_everything(c, pre, e, i);
        assert(expert_reads(c, pre, false, n)[i] == init[i]);
    }
}

/// A streamed layer holds none of its routed experts.
pub proof fn lemma_streamed_experts_stay_on_disk(c: Cfg, pre: Seq<char>, n: nat, i: int)
    requires
        0 <= i < expert_reads(c, pre, true, n).len(),
    ensures
        !holds(expert_reads(c, pre, true, n), i),
    decreases n,
{
    let e = (n - 1) as nat;
    let init = expert_reads(c, pre, true, e);
    if i < init.len() {
        lemma_streamed_experts_stay_on_disk(c, pre, e, i);
        assert(expert_reads(c, pre, true, n)[i] == init[i]);
    }
}

/// Norms are centred on zero in a hybrid model and plain in any other, and keep
/// their length.
pub proof fn lemma_form_of_a_norm(c: Cfg, len: usize)
    ensures
        c.arch == Arch::HybridGdn ==> norm_form(c, len) == (Form::ZeroCentered { len }),
        c.arch != Arch::HybridGdn ==> norm_form(c, len) == (Form::Plain { len }),
{
}

/// The matrices offered of an attention have names of their own, and the one that
/// writes back comes last.
pub proof fn lemma_projections_have_their_own_names(attn: Attn)
    ensures
        projection_names(attn).no_duplicates(),
        attn == Attn::Mla ==> projection_names(attn).len() == 5 && projection_names(attn).last()
            == "o"@,
        attn == Attn::Gqa ==> projection_names(attn).len() == 4 && projection_names(attn).last()
            == "o"@,
        attn == Attn::Gdn ==> projection_names(attn).len() == 5 && projection_names(attn).last()
            == "out"@,
        attn == Attn::Gqa ==> projection_names(attn) == seq!["q"@, "k"@, "v"@, "o"@],
        attn == Attn::Mla ==> projection_names(attn).take(4) == seq![
            "q_a"@,
            "q_b"@,
            "kv_a"@,
            "kv_b"@,
        ],
        attn == Attn::Gdn ==> projection_names(attn).take(4) == seq![
            "in_qkv"@,
            "in_z"@,
            "in_a"@,
            "in_b"@,
        ],
{
    reveal_strlit("q_a");
    reveal_strlit("q_b");
    reveal_strlit("kv_a");
    reveal_strlit("kv_b");
    reveal_strlit("o");
    reveal_strlit("q");
    reveal_strlit("k");
    reveal_strlit("v");
    reveal_strlit("in_qkv");
    reveal_strlit("in_z");
    reveal_strlit("in_a");
    reveal_strlit("in_b");
    reveal_strlit("out");
    assert("q_a"@[2] != "q_b"@[2]);
    assert("kv_a"@[3] != "kv_b"@[3]);
    assert("q_a"@.len() == 3 && "q_b"@.len() == 3 && "kv_a"@.len() == 4 && "kv_b"@.len() == 4);
    assert("q"@.len() == 1 && "k"@.len() == 1 && "v"@.len() == 1 && "o"@.len() == 1);
    assert("in_qkv"@.len() == 6 && "in_z"@.len() == 4 && "in_a"@.len() == 4 && "in_b"@.len() == 4);
    assert("out"@.len() == 3);
    assert("q"@[0] != "k"@[0] && "q"@[0] != "v"@[0] && "q"@[0] != "o"@[0]);
    assert("k"@[0] != "v"@[0] && "k"@[0] != "o"@[0] && "v"@[0] != "o"@[0]);
    assert("in_z"@[3] != "in_a"@[3] && "in_z"@[3] != "in_b"@[3] && "in_a"@[3] != "in_b"@[3]);
    let names = projection_names(attn);
    assert(names[0] != names[1] && names[0] != names[2] && names[0] != names[3]);
    assert(names[1] != names[2] && names[1] != names[3] && names[2] != names[3]);
    if names.len() == 5 {
        assert(names[0] != names[4] && names[1] != names[4]);
        assert(names[2] != names[4] && names[3] != names[4]);
    }
    if attn == Attn::Mla {
        assert(projection_names(attn).take(4) =~= seq!["q_a"@, "q_b"@, "kv_a"@, "kv_b"@]);
    }
    if attn == Attn::Gdn {
        assert(projection_names(attn).take(4) =~= seq!["in_qkv"@, "in_z"@, "in_a"@, "in_b"@]);
    }
}

/// A layer's tensors stand under its number: below the language model in a hybrid
/// model, and below the model in any other.
pub proof fn lemma_where_a_layers_tensors_stand(c: Cfg, i: nat)
    ensures
        c.arch == Arch::HybridGdn ==> stack_prefix(c, i) == "model.language_model.layers."@
            + text::decimal(i) + "."@,
        c.arch != Arch::HybridGdn ==> stack_prefix(c, i) == "model.layers."@ + text::decimal(i)
            + "."@,
{
}

} // verus!
