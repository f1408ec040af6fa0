use peregrine_model::cfg::{Arch, Cfg};
use peregrine_model::knobs::KvDtype;
use peregrine_model::kv::{CacheError, LayerKv};
use peregrine_model::seqkv::{GdnState, SeqKv};

fn shape(arch: Arch, n_layers: usize) -> Cfg {
    Cfg {
        arch,
        n_layers,
        n_experts: 4,
        hidden: 8,
        moe_inter: 4,
        first_dense: 1,
        vocab: 32,
        topk: 2,
        n_shared: 1,
        dense_inter: 16,
        n_heads: 2,
        n_kv_heads: 1,
        head_dim: 4,
        attn_gate: false,
        qk_head: 4,
        qk_nope: 2,
        qk_rope: 2,
        v_head: 2,
        q_lora: 4,
        kv_lora: 2,
        lin_k_heads: 1,
        lin_v_heads: 1,
        lin_k_dim: 2,
        lin_v_dim: 2,
        lin_conv_k: 2,
        gdn_cells: 3,
        kv_row_a: 2,
        kv_row_b: 1,
        full_attn: vec![false, true, false],
    }
}

fn filled(cfg: &Cfg, dt: KvDtype, n: usize, keys: bool) -> SeqKv {
    let mut s = SeqKv::with_dtype(cfg, dt);
    for pos in 0..n {
        for layer in 0..cfg.n_layers {
            let base = (100 * layer + 10 * pos) as u32;
            assert_eq!(s.append(layer, pos, &[base, base + 1], &[base + 2]), Ok(()));
            if keys {
                s.append_index_key(layer, &[base + 3, base + 4]);
            }
        }
    }
    s
}

fn streams(s: &SeqKv, n: usize) -> Vec<(Vec<u32>, Vec<u32>, Vec<u32>)> {
    s.export_prefix(n).layers.into_iter().map(|l| (l.lc, l.rc, l.ix)).collect()
}

#[test]
fn an_export_rebuilds_the_cache_it_was_taken_from() {
    let cfg = shape(Arch::GlmMla, 3);
    for dt in [KvDtype::F32, KvDtype::F16] {
        let live = filled(&cfg, dt, 6, true);
        let ex = live.export_prefix(live.len());
        assert_eq!(ex.n, 6);
        let restored = match SeqKv::import(&cfg, dt, &ex) {
            Ok(s) => s,
            Err(e) => panic!("a fresh export is importable: {e:?}"),
        };
        assert_eq!(restored.len(), live.len());
        assert_eq!(restored.index_len(), live.index_len());
        assert_eq!(streams(&restored, 6), streams(&live, 6));
    }
}

#[test]
fn an_export_is_not_read_as_elements_of_another_type() {
    let cfg = shape(Arch::GlmMla, 2);
    let narrow = filled(&cfg, KvDtype::F16, 3, true).export_prefix(3);
    assert!(narrow.layers.iter().all(|l| l.dtype == KvDtype::F16));
    assert_eq!(SeqKv::import(&cfg, KvDtype::F32, &narrow).err(), Some(CacheError::ElementType));
    assert!(SeqKv::import(&cfg, KvDtype::F16, &narrow).is_ok());
    let wide = filled(&cfg, KvDtype::F32, 3, true).export_prefix(3);
    assert_eq!(SeqKv::import(&cfg, KvDtype::F16, &wide).err(), Some(CacheError::ElementType));
}

#[test]
fn an_export_lays_rows_end_to_end() {
    let cfg = shape(Arch::GlmMla, 2);
    let s = filled(&cfg, KvDtype::F32, 2, false);
    assert_eq!(
        streams(&s, 9),
        vec![
            (vec![0, 1, 10, 11], vec![2, 12], vec![]),
            (vec![100, 101, 110, 111], vec![102, 112], vec![]),
        ]
    );
}

#[test]
fn a_misshapen_export_is_refused() {
    let cfg = shape(Arch::GlmMla, 2);
    let live = filled(&cfg, KvDtype::F32, 4, true);
    let mut ex = live.export_prefix(4);
    ex.layers[0].lc.pop();
    assert_eq!(SeqKv::import(&cfg, KvDtype::F32, &ex).err(), Some(CacheError::StreamLength));
    let mut ex = live.export_prefix(4);
    ex.layers.pop();
    assert_eq!(SeqKv::import(&cfg, KvDtype::F32, &ex).err(), Some(CacheError::LayerCount));
    let mut ex = live.export_prefix(4);
    ex.layers[1].ix.pop();
    assert_eq!(SeqKv::import(&cfg, KvDtype::F32, &ex).err(), Some(CacheError::IndexLength));
}

#[test]
fn a_gather_refuses_what_it_cannot_do_safely() {
    let cfg = shape(Arch::GlmMla, 2);
    let mut seq = filled(&cfg, KvDtype::F32, 5, false);
    let mut viewer = seq.clone_prefix(3);
    assert_eq!(viewer.retain_tail(1, &[1, 2]), Err(CacheError::SharedPrefix));
    assert_eq!(seq.retain_tail(3, &[4, 3]), Err(CacheError::KeepOrder));
    assert_eq!(seq.retain_tail(3, &[3, 99]), Err(CacheError::KeepPastEnd));
    assert_eq!(seq.retain_tail(99, &[]), Err(CacheError::FromPastEnd));
    assert_eq!(seq.len(), 5, "a refusal changes nothing");
}

#[test]
fn a_gather_keeps_the_named_positions_in_order() {
    let cfg = shape(Arch::GlmMla, 1);
    let mut seq = filled(&cfg, KvDtype::F32, 5, true);
    assert_eq!(seq.retain_tail(2, &[2, 4]), Ok(()));
    assert_eq!((seq.len(), seq.index_len()), (4, 4));
    assert_eq!(
        streams(&seq, 4),
        vec![(
            vec![0, 1, 10, 11, 20, 21, 40, 41],
            vec![2, 12, 22, 42],
            vec![3, 4, 13, 14, 23, 24, 43, 44]
        )]
    );
}

#[test]
fn gathering_a_chain_is_a_rewind() {
    let cfg = shape(Arch::GlmMla, 2);
    let mut a = filled(&cfg, KvDtype::F32, 6, true);
    let mut b = filled(&cfg, KvDtype::F32, 6, true);
    assert_eq!(a.retain_tail(3, &[3, 4]), Ok(()));
    b.truncate(5);
    assert_eq!(streams(&a, 9), streams(&b, 9));
}

#[test]
fn a_rewind_undoes_what_was_appended() {
    let cfg = shape(Arch::GlmMla, 2);
    let before = filled(&cfg, KvDtype::F32, 3, true);
    let mut after = filled(&cfg, KvDtype::F32, 6, true);
    after.truncate(3);
    assert_eq!((after.len(), after.index_len()), (3, 3), "latents and keys rewind together");
    assert_eq!(streams(&after, 9), streams(&before, 9));
    // A longer length leaves it as it is.
    after.truncate(50);
    assert_eq!(after.len(), 3);
}

#[test]
fn one_prefix_is_charged_once_however_many_read_it() {
    let cfg = shape(Arch::GlmMla, 2);
    let src = filled(&cfg, KvDtype::F32, 6, false);
    assert!(src.owned_bytes() > 0);
    assert_eq!(src.shared_prefix(), None);
    assert_eq!(src.bytes(), src.owned_bytes());
    // Two layers of six positions of three four-byte elements.
    assert_eq!(src.bytes(), 2 * 6 * 3 * 4);
    let entry = src.clone_prefix(4);
    let mut a = entry.clone_prefix(4);
    let b = entry.clone_prefix(3);
    let (id_a, bytes_a) = match a.shared_prefix() {
        Some(p) => p,
        None => panic!("a seeded sequence reports its shared prefix"),
    };
    let (id_b, bytes_b) = match b.shared_prefix() {
        Some(p) => p,
        None => panic!("a seeded sequence reports its shared prefix"),
    };
    assert_eq!(id_a, id_b, "both read one allocation");
    assert_eq!(bytes_a, bytes_b, "and both report its full size");
    assert_eq!(bytes_a, entry.bytes());
    assert_eq!((a.owned_bytes(), b.owned_bytes()), (0, 0));
    assert!(b.bytes() < a.bytes());
    assert_eq!(a.owned_bytes() + b.owned_bytes() + bytes_a, entry.bytes());
    // Decoding on top adds private bytes only.
    for layer in 0..2 {
        assert_eq!(a.append(layer, 4, &[7, 8], &[9]), Ok(()));
    }
    assert!(a.owned_bytes() > 0);
    assert_eq!(a.shared_prefix().map(|p| p.1), Some(bytes_a));
    assert_eq!((a.len(), b.len()), (5, 3));
    // Another entry is another allocation.
    let other = src.clone_prefix(4);
    assert_ne!(other.shared_prefix().map(|p| p.0), Some(id_a));
}

#[test]
fn a_prefix_reads_as_the_sequence_it_came_from() {
    let cfg = shape(Arch::GlmMla, 2);
    let src = filled(&cfg, KvDtype::F32, 6, true);
    let entry = src.clone_prefix(4);
    let seeded = entry.clone_prefix(4);
    assert_eq!((entry.len(), entry.index_len()), (4, 4));
    assert_eq!((seeded.len(), seeded.index_len()), (4, 4));
    assert_eq!(streams(&seeded, 4), streams(&src, 4));
    // Asking for more than there is gives what there is.
    assert_eq!(src.clone_prefix(99).len(), 6);
}

#[test]
fn a_half_width_cache_takes_half_the_bytes() {
    let cfg = shape(Arch::GlmMla, 2);
    let wide = filled(&cfg, KvDtype::F32, 6, false);
    let narrow = filled(&cfg, KvDtype::F16, 6, false);
    assert_eq!(narrow.bytes() * 2, wide.bytes());
    assert_eq!(narrow.owned_bytes() * 2, wide.owned_bytes());
    assert_eq!(narrow.clone_prefix(4).bytes() * 2, wide.clone_prefix(4).bytes());
}

#[test]
fn the_element_type_follows_the_setting() {
    let cfg = shape(Arch::GlmMla, 1);
    let mut wide = SeqKv::new(&cfg, None);
    let mut narrow = SeqKv::new(&cfg, Some("f16"));
    let mut odd = SeqKv::new(&cfg, Some("f8"));
    for s in [&mut wide, &mut narrow, &mut odd] {
        assert!(s.is_empty());
        assert_eq!(s.append(0, 0, &[1, 2], &[3]), Ok(()));
    }
    assert_eq!((wide.bytes(), narrow.bytes(), odd.bytes()), (12, 6, 12));
}

#[test]
fn rows_of_another_width_or_place_are_refused() {
    let mut k = LayerKv::with_dtype(2, 1, KvDtype::F32);
    assert_eq!(k.append(1, &[1, 2], &[3]), Err(CacheError::Position));
    assert_eq!(k.append(0, &[1], &[3]), Err(CacheError::Width));
    assert_eq!(k.append(0, &[1, 2], &[3]), Ok(()));
    assert_eq!((k.len(), k.index_len(), k.is_empty()), (1, 0, false));
}

#[test]
fn a_recurrent_state_is_restored_and_not_rewound() {
    let cfg = shape(Arch::HybridGdn, 3);
    let mut s = SeqKv::with_dtype(&cfg, KvDtype::F32);
    assert!(s.has_recurrent_state());
    let step = |len: usize, v: u32| GdnState { len, cells: vec![v, v, v] };
    assert_eq!(s.advance(0, step(1, 5)), Ok(()));
    assert_eq!(s.advance(1, step(1, 5)), Err(CacheError::NoState));
    assert_eq!(s.advance(2, GdnState { len: 1, cells: vec![1] }), Err(CacheError::Geometry));
    let snap = match s.gdn_snapshot() {
        Some(v) => v,
        None => panic!("a hybrid has states to copy"),
    };
    assert_eq!(snap.iter().map(|e| e.0).collect::<Vec<usize>>(), vec![0, 2]);
    assert_eq!(s.advance(0, step(2, 9)), Ok(()));
    s.truncate(0);
    // Truncation leaves states alone; restoring brings them back.
    let now = match s.gdn_snapshot() {
        Some(v) => v,
        None => panic!("a hybrid has states to copy"),
    };
    assert_eq!((now[0].1.len, now[0].1.cells.clone()), (2, vec![9, 9, 9]));
    assert_eq!(s.gdn_restore(&snap), Ok(()));
    let back = match s.gdn_snapshot() {
        Some(v) => v,
        None => panic!("a hybrid has states to copy"),
    };
    assert_eq!((back[0].1.len, back[0].1.cells.clone()), (1, vec![5, 5, 5]));
    // A sequence without states has nothing to copy and refuses to be restored.
    let mut plain = SeqKv::with_dtype(&shape(Arch::GlmMla, 3), KvDtype::F32);
    assert!(!plain.has_recurrent_state());
    assert!(plain.gdn_snapshot().is_none());
    assert_eq!(plain.gdn_restore(&snap), Err(CacheError::NoState));
}
