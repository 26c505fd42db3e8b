use cmd_transformer::model;
use cmd_transformer::train;
use cmd_transformer::train::Report;
use cmd_transformer::train::TrainError;

#[test]
fn nothing_can_be_trained_on_nothing() {
    assert_eq!(train::check_commands(1), Ok(()));
    let e = train::check_commands(0).unwrap_err();
    assert_eq!(e, TrainError::NoCommands);
    assert_eq!(e.message(), "no commands in database — run cmd-record first");
    let few = vec![0u32; 258];
    let e = train::split_data(&few).err().unwrap();
    assert_eq!(e, TrainError::NotEnoughData(258));
    assert_eq!(e.message(), "not enough data (258 tokens); record more commands first");
}

#[test]
fn nine_tenths_are_trained_on() {
    let data: Vec<u32> = (0..259).collect();
    let split = train::split_data(&data).ok().unwrap();
    assert_eq!(split.train.len(), 233);
    assert_eq!(split.val.len(), 26);
    assert_eq!([split.train, split.val].concat(), data);
    assert!(!split.can_eval());
    let data: Vec<u32> = (0..1290).collect();
    assert!(!train::split_data(&data).ok().unwrap().can_eval());
    let data: Vec<u32> = (0..1300).collect();
    let split = train::split_data(&data).ok().unwrap();
    assert_eq!(split.val.len(), 130);
    assert!(split.can_eval());
}

#[test]
fn targets_follow_inputs() {
    let data: Vec<u32> = (0..20).map(|i| i * i).collect();
    let batch = train::batch_at(&data, 3, &vec![5, 0, 16]);
    assert_eq!(batch.x, vec![25, 36, 49, 0, 1, 4, 256, 289, 324]);
    assert_eq!(batch.y, vec![36, 49, 64, 1, 4, 9, 289, 324, 361]);
    let none = train::batch_at(&data, 3, &Vec::new());
    assert!(none.x.is_empty() && none.y.is_empty());
}

#[test]
fn batches_are_windows_of_the_data() {
    let data: Vec<u32> = (100..140).collect();
    let mut rng = rand::thread_rng();
    let mut seen = std::collections::HashSet::new();
    for _ in 0..200 {
        let batch = train::get_batch(&data, 8, 16, &mut rng);
        assert_eq!(batch.x.len(), 128);
        assert_eq!(batch.y.len(), 128);
        for w in 0..16 {
            let start = batch.x[w * 8];
            assert!(100 <= start && start < 131);
            seen.insert(start);
            for k in 0..8 {
                assert_eq!(batch.x[w * 8 + k], start + k as u32);
                assert_eq!(batch.y[w * 8 + k], start + k as u32 + 1);
            }
        }
    }
    // The start is drawn anew each time, from all places there are.
    assert_eq!(seen.len(), 31);
}

#[test]
fn the_smallest_data_leaves_no_choice() {
    let mut rng = rand::thread_rng();
    let batch = train::get_batch(&[1, 2, 3, 4], 2, 2, &mut rng);
    assert_eq!(batch.x, vec![1, 2, 1, 2]);
    assert_eq!(batch.y, vec![2, 3, 2, 3]);
    assert_eq!(train::start_count(4, 2), 1);
    assert_eq!(train::start_count(3, 2), 0);
    assert_eq!(train::start_count(259, train::BLOCK_SIZE), 130);
    let none = train::get_batch(&[1, 2, 3], 2, 0, &mut rng);
    assert!(none.x.is_empty() && none.y.is_empty());
}

#[test]
fn the_loss_is_reported_now_and_then() {
    assert_eq!(train::report_at(1, true), Report::TrainAndVal);
    assert_eq!(train::report_at(1, false), Report::Train);
    assert_eq!(train::report_at(2, true), Report::Silent);
    assert_eq!(train::report_at(299, true), Report::Silent);
    assert_eq!(train::report_at(300, true), Report::TrainAndVal);
    assert_eq!(train::report_at(train::MAX_ITERS, false), Report::Train);
    let reports = (1..=train::MAX_ITERS).filter(|i| train::report_at(*i, true) != Report::Silent);
    assert_eq!(reports.count(), 11);
}

#[test]
fn no_position_sees_the_future() {
    assert_eq!(
        model::causal_mask(3),
        vec![true, false, false, true, true, false, true, true, true]
    );
    assert_eq!(model::causal_mask(1), vec![true]);
    assert_eq!(model::causal_mask(0), Vec::<bool>::new());
}

#[test]
fn heads_share_the_width() {
    let layer = model::CausalSelfAttention::new(128, 4);
    assert_eq!(layer.n_embd, 128);
    assert_eq!(layer.n_head, 4);
    assert_eq!(layer.head_dim, 32);
    assert_eq!(layer.qkv_width, 384);
    let plan = layer.plan(16, 2, 128);
    assert_eq!((plan.query, plan.key, plan.value, plan.width), (0, 128, 256, 128));
    assert_eq!(plan.heads, (16, 2, 4, 32));
    assert_eq!(plan.merged, (16, 2, 128));
    let (b, t, n_head, head_dim) = plan.heads;
    assert_eq!(b * t * n_head * head_dim, 16 * 2 * 128);
    assert_eq!(plan.mask_shape, (1, 1, 2, 2));
    assert_eq!(plan.mask, vec![true, false, true, true]);
    assert_eq!(model::CausalSelfAttention::new(10, 4).head_dim, 2);
    assert_eq!(model::mlp_width(128), 512);
    assert_eq!(model::flat_shape(16, 128, 95), (2048, 95));
    assert_eq!(model::last_row(128), 127);
    assert_eq!(model::last_row(1), 0);
}

#[test]
fn blocks_are_numbered() {
    assert_eq!(model::block_names(3), vec!["h.0", "h.1", "h.2"]);
    assert_eq!(model::block_names(0), Vec::<String>::new());
    assert_eq!(model::block_names(12)[11], "h.11");
    let names: std::collections::HashSet<String> = model::block_names(150).into_iter().collect();
    assert_eq!(names.len(), 150);
}
