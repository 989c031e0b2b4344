use goldworm::chat_types::{GeometryError, LearnerError, QuaternionAttention, AvalancheSelection};
use goldworm::cuda::{cuda_malloc, cuda_memcpy_device_to_host, cuda_memcpy_host_to_device, download_spikes, DevicePtr};
use goldworm::curriculum::SemanticCurriculum;
use goldworm::harness::{HarnessMode, SamplingStrategy};
use goldworm::moa::MoaIndexTable;
use goldworm::scaling::{scale_factor, ScaleDir};
use goldworm::snn::{position_in_stage, stage_name, stage_of, INPUT_NEURONS, NEURONS_PER_STAGE, OUTPUT_NEURONS, STAGES, TOTAL_NEURONS};
use goldworm::tripartite::{ArcPhase, ArcTripartiteEncoder};

#[test]
fn cuda_malloc_returns_none_in_stub() {
    let ptr: Option<DevicePtr<f32>> = cuda_malloc(1024);
    assert!(ptr.is_none(), "Stub cuda_malloc should return None");
}

#[test]
fn cuda_copies_succeed_without_moving_data() {
    let data = [1.0f32, 2.0, 3.0];
    let dev: DevicePtr<f32> = DevicePtr::from_raw(0);
    assert!(cuda_memcpy_host_to_device(dev, &data).is_ok());
    let mut host = [4.0f32, 5.0];
    assert!(cuda_memcpy_device_to_host(&mut host, dev).is_ok());
    assert_eq!(host, [4.0, 5.0]);
    assert_eq!(DevicePtr::<u8>::from_raw(42).as_raw(), 42);
}

#[test]
fn download_spikes_gives_zeros() {
    let buf = download_spikes(DevicePtr::from_raw(0), 3).unwrap();
    assert_eq!(buf.indices, vec![0, 0, 0]);
    assert_eq!(buf.count, 3);
}

#[test]
fn test_encoder_creation() {
    let enc = ArcTripartiteEncoder::new(30, 30, 1);
    assert_eq!(enc.width, 30);
    assert_eq!(enc.height, 30);
    assert_eq!(enc.scale_width, 1);
    assert_eq!(enc.base_dim(), 73);
    assert_eq!(enc.scaled_dim(), 73);
}

#[test]
fn test_encoder_scaled_dim() {
    let enc = ArcTripartiteEncoder::new(30, 30, 4);
    assert_eq!(enc.base_dim(), 73);
    assert_eq!(enc.scaled_dim(), 292);
}

#[test]
fn tripartite_regions_follow_each_other() {
    let enc = ArcTripartiteEncoder::new(10, 10, 2);
    assert_eq!(enc.identity_offset(1), 10);
    assert_eq!(enc.spatial_offset(0), 20);
    assert_eq!(enc.spatial_offset(1), 80);
    assert_eq!(enc.context_offset(0), 140);
    assert_eq!(enc.context_offset(1), 143);
    assert_eq!(ArcPhase::DemoInput.slot(), 0);
    assert_eq!(ArcPhase::DemoOutput.slot(), 1);
    assert_eq!(ArcPhase::TestInput.slot(), 2);
}

#[test]
fn scale_factor_computation() {
    assert_eq!(scale_factor(1, 4), 2);
    assert_eq!(scale_factor(4, 1), 2);
    assert_eq!(scale_factor(2, 2), 0);
}

#[test]
fn scale_factor_rounds_to_the_nearest_doubling() {
    assert_eq!(scale_factor(0, 8), 0);
    assert_eq!(scale_factor(8, 0), 0);
    assert_eq!(scale_factor(1, 2), 1);
    assert_eq!(scale_factor(1, 3), 2);
    assert_eq!(scale_factor(5, 7), 0);
    assert_eq!(scale_factor(2, 3), 1);
    assert_eq!(scale_factor(3, 12), 2);
    assert_eq!(scale_factor(1, 1 << 40), 40);
    assert_eq!(scale_factor(usize::MAX, 1), usize::BITS as usize);
    for (a, b) in [(3usize, 17usize), (100, 7), (9, 9), (1, 1000)] {
        assert_eq!(scale_factor(a, b), scale_factor(b, a));
    }
    assert_ne!(ScaleDir::Up, ScaleDir::Down);
}

#[test]
fn snn_stage_constants() {
    assert_eq!(TOTAL_NEURONS, 180);
    assert_eq!(STAGES, 6);
    assert_eq!(NEURONS_PER_STAGE, 30);
}

#[test]
fn stages_split_the_neurons() {
    assert_eq!(INPUT_NEURONS, 30);
    assert_eq!(OUTPUT_NEURONS, 30);
    assert_eq!(stage_of(0), 0);
    assert_eq!(stage_of(29), 0);
    assert_eq!(stage_of(30), 1);
    assert_eq!(stage_of(179), 5);
    assert_eq!(stage_of(500), 5);
    assert_eq!(position_in_stage(31), 1);
    for n in 0..TOTAL_NEURONS {
        assert_eq!(stage_of(n) * NEURONS_PER_STAGE + position_in_stage(n), n);
    }
    assert_eq!(stage_name(0), "Sensor");
    assert_eq!(stage_name(3), "Compression");
    assert_eq!(stage_name(5), "RL");
}

#[test]
fn harness_mode_labels() {
    assert_eq!(HarnessMode::default(), HarnessMode::Train);
    assert_eq!(HarnessMode::Train.as_str(), "TRAIN");
    assert_eq!(HarnessMode::Eval.as_str(), "EVAL");
    assert_eq!(HarnessMode::Dream.as_str(), "DREAM");
    assert_eq!(HarnessMode::Consolidate.as_str(), "CONSOLIDATE");
    assert_ne!(SamplingStrategy::Uniform, SamplingStrategy::Balanced);
}

#[test]
fn moa_table_routes_to_expert_zero() {
    let mut t = MoaIndexTable::new(4, 3);
    assert_eq!(t.table, vec![0, 0, 0, 0]);
    assert_eq!(t.num_tokens, 4);
    assert_eq!(t.num_experts, 3);
    t.table[2] = 1;
    assert_eq!(t.expert_of(2), 1);
    assert_eq!(t.expert_of(3), 0);
}

#[test]
fn curriculum_material() {
    let seqs = SemanticCurriculum::level2_sequences();
    assert_eq!(seqs.len(), 4);
    assert_eq!(seqs[0], vec!["der".to_string(), "hund".to_string(), "läuft".to_string()]);
    assert_eq!(seqs[3][2], "bellt");
    let pairs = SemanticCurriculum::contrastive_pairs();
    assert_eq!(pairs.len(), 3);
    assert_eq!(pairs[1], ("katze".to_string(), "kätzchen".to_string(), "auto".to_string()));
}

#[test]
fn error_messages() {
    let e = GeometryError::DimensionMismatch { expected: 3, got: 12 };
    assert_eq!(e.message(), "dimension mismatch: expected 3, got 12");
    assert_eq!(LearnerError::InvalidTrainerIndex.message(), "invalid trainer index");
    assert_eq!(LearnerError::InvalidEncoderIndex.message(), "invalid encoder index");
    assert_eq!(LearnerError::InvalidDecoderIndex.message(), "invalid decoder index");
}

#[test]
fn plain_types() {
    assert_eq!(QuaternionAttention::new(), QuaternionAttention);
    let sel = AvalancheSelection {
        active_clusters: vec![1, 2],
        avalanche_size: 5,
        selected_words: vec!["hund".to_string()],
        template_pattern: "DET NOUN VERB".to_string(),
        seed_clusters: vec![],
    };
    assert_eq!(sel.clone().avalanche_size, 5);
}

#[test]
fn cuda_memcpy_stub_succeeds() {
    let data = [1.0f32, 2.0, 3.0];
    let dev = DevicePtr::from_raw(0);
    assert!(cuda_memcpy_host_to_device(dev, &data).is_ok());
}

#[test]
fn snn_stage_of() {
    assert_eq!(stage_of(0), 0);
    assert_eq!(stage_of(29), 0);
    assert_eq!(stage_of(30), 1);
    assert_eq!(stage_of(179), 5);
}
