//! Scatter plans, and the rewriting that puts them into a model, on tensors of the inference
//! engine.
use std::sync::Arc;

use tract_onnx::prelude::tract_ndarray::Array2;
use tract_onnx::prelude::{Datum, IntoTValue, TVec, TValue, Tensor};
use tract_onnx::tract_core::internal::EvalOp;
use tract_onnx::tract_core::ops::array::{ScatterNd, ScatterReduction};
use tract_onnx::tract_core::prelude::tract_linalg::block_quant::{
    BlockQuant, BlockQuantStorage, Q4_0,
};

use speech_enhance::rewrite::{
    replace_const_scatternd, Action, Event, Graph, NodeKind, Phase, RewriteError, Rewriter,
};
use speech_enhance::scatter::{build_plan, plan_blocks, FastScatterConst, PlanError};

const SCATTER: NodeKind = NodeKind::Scatter { reduces: false, inputs: 3 };

fn plan(blocks: &[(usize, usize)], slice_size: usize) -> FastScatterConst {
    FastScatterConst { blocks: blocks.to_vec(), slice_size }
}

fn ints(shape: &[usize], values: &[i64]) -> Tensor {
    Tensor::from_shape(shape, values).unwrap()
}

fn words(values: &[&str]) -> Tensor {
    let column: Vec<String> = values.iter().map(|v| v.to_string()).collect();
    Tensor::from(Array2::from_shape_vec((values.len(), 1), column).unwrap())
}

// Planning.

#[test]
fn plan_finds_rows() {
    // Rows 2 and 0 of a table of three rows.
    assert_eq!(plan_blocks(&[3, 4], &[2, 1], &[2, 0]), Ok(plan(&[(8, 0), (0, 4)], 4)));
}

#[test]
fn plan_finds_single_elements() {
    assert_eq!(
        plan_blocks(&[2, 3, 4], &[2, 3], &[1, 2, 3, 0, 1, 0]),
        Ok(plan(&[(23, 0), (4, 1)], 1))
    );
}

#[test]
fn plan_takes_empty_index_vectors_as_the_whole() {
    assert_eq!(plan_blocks(&[2, 3], &[1, 0], &[]), Ok(plan(&[(0, 0)], 6)));
    assert_eq!(plan_blocks(&[2, 3], &[0, 1], &[]), Ok(plan(&[], 3)));
    assert_eq!(plan_blocks(&[], &[0], &[]), Ok(plan(&[(0, 0)], 1)));
}

#[test]
fn plan_goes_by_all_axes_of_the_indices_but_the_last() {
    assert_eq!(
        plan_blocks(&[4, 2], &[2, 2, 1], &[3, 2, 1, 0]),
        Ok(plan(&[(6, 0), (4, 2), (2, 4), (0, 6)], 2))
    );
}

#[test]
fn indices_need_an_axis() {
    assert_eq!(plan_blocks(&[2, 3], &[], &[1]), Err(PlanError::NoRank));
    assert_eq!(build_plan(&[2, 3], &Tensor::from(1i64)), Err(PlanError::NoRank));
}

#[test]
fn index_vectors_must_not_be_wider_than_the_data() {
    assert_eq!(
        plan_blocks(&[2, 3], &[1, 3], &[0, 0, 0]),
        Err(PlanError::TooWide { width: 3, rank: 2 })
    );
}

#[test]
fn indices_must_not_be_negative() {
    assert_eq!(plan_blocks(&[2, 3], &[2, 1], &[0, -1]), Err(PlanError::NegativeIndex));
}

#[test]
fn places_must_fit_in_a_word() {
    let huge = usize::MAX / 2;
    assert_eq!(plan_blocks(&[2, huge, 3], &[1, 1], &[0]), Err(PlanError::TooLarge));
    assert_eq!(plan_blocks(&[2, huge], &[1, 1], &[3]), Err(PlanError::TooLarge));
    assert_eq!(plan_blocks(&[2, huge], &[1, 1], &[1]), Ok(plan(&[(huge, 0)], huge)));
}

#[test]
fn tensors_of_indices_are_read_as_integers() {
    let expected = Ok(plan(&[(8, 0), (0, 4)], 4));
    assert_eq!(build_plan(&[3, 4], &ints(&[2, 1], &[2, 0])), expected);
    let narrow = Tensor::from_shape(&[2, 1], &[2i32, 0]).unwrap();
    assert_eq!(build_plan(&[3, 4], &narrow), expected);
    let text = words(&["2", "0"]);
    assert_eq!(build_plan(&[3, 4], &text), expected);
    assert_eq!(build_plan(&[3, 4], &ints(&[1, 1], &[-2])), Err(PlanError::NegativeIndex));
    assert_eq!(
        build_plan(&[3], &ints(&[1, 2], &[0, 0])),
        Err(PlanError::TooWide { width: 2, rank: 1 })
    );
}

#[test]
fn unreadable_indices_say_why() {
    let text = words(&["one"]);
    assert_eq!(
        build_plan(&[3, 4], &text),
        Err(PlanError::NotIntegers("Can not parse as I64".to_string()))
    );
}

fn packed(shape: &[usize]) -> Tensor {
    let blob = Q4_0.quant_f32(&[0.0; 32]).unwrap();
    BlockQuantStorage::new(Box::new(Q4_0), 1, 32, Arc::new(blob))
        .unwrap()
        .into_tensor_with_shape(i64::datum_type(), shape)
}

#[test]
fn packed_indices_are_refused() {
    assert_eq!(build_plan(&[3; 40], &packed(&[1, 32])), Err(PlanError::NotPlain));
    assert_eq!(
        build_plan(&[3, 4], &packed(&[1, 32])),
        Err(PlanError::TooWide { width: 32, rank: 2 })
    );
    assert_eq!(build_plan(&[3, 4], &packed(&[])), Err(PlanError::NoRank));
}

// Copying.

#[test]
fn blocks_are_copied_in_order() {
    let mut data = vec![0, 0, 0, 0, 0, 0];
    plan(&[(4, 0), (1, 2)], 2).eval(&mut data, &[1, 2, 3, 4]);
    assert_eq!(data, vec![0, 3, 4, 0, 1, 2]);
}

#[test]
fn later_blocks_win() {
    let mut data = vec![0, 0, 0];
    plan(&[(0, 0), (0, 2), (1, 4)], 2).eval(&mut data, &[1, 2, 3, 4, 5, 6]);
    assert_eq!(data, vec![3, 5, 6]);
}

#[test]
fn places_that_no_block_covers_stay() {
    let mut data = vec![7, 8, 9];
    plan(&[(1, 0)], 1).eval(&mut data, &[1]);
    assert_eq!(data, vec![7, 1, 9]);
    plan(&[], 5).eval(&mut data, &[]);
    assert_eq!(data, vec![7, 1, 9]);
}

#[test]
fn plan_does_what_the_engine_does() {
    let shape = [3usize, 2, 4];
    let data: Vec<f32> = (0..24).map(|i| i as f32).collect();
    let indices = ints(&[3, 2], &[2, 1, 0, 0, 1, 1]);
    let updates: Vec<f32> = (0..12).map(|i| 100.0 + i as f32).collect();

    let inputs: TVec<TValue> = [
        Tensor::from_shape(&shape, &data).unwrap().into_tvalue(),
        indices.clone().into_tvalue(),
        Tensor::from_shape(&[3, 4], &updates).unwrap().into_tvalue(),
    ]
    .into_iter()
    .collect();
    let engine = ScatterNd { reduction: ScatterReduction::None };
    let outputs = engine.eval(inputs).unwrap();
    let plain = outputs[0].try_as_plain().unwrap();
    let expected: Vec<f32> = plain.as_slice::<f32>().unwrap().to_vec();

    let mut ours = data;
    build_plan(&shape, &indices).unwrap().eval(&mut ours, &updates);
    assert_eq!(ours, expected);
}

#[test]
fn different_index_vectors_pick_disjoint_slices() {
    // All rows of all tables, in no particular order.
    let order: [i64; 12] = [1, 2, 0, 0, 1, 0, 0, 2, 0, 1, 1, 1];
    let shape = [2usize, 3, 5];
    let p = plan_blocks(&shape, &[6, 2], &order).unwrap();
    let mut hits = vec![0; 30];
    for (to, _) in &p.blocks {
        assert!(to + p.slice_size <= 30);
        for hit in &mut hits[*to..to + p.slice_size] {
            *hit += 1;
        }
    }
    assert!(hits.iter().all(|&h| h == 1));
}

// Rewriting.

fn at(node_count: usize, id: usize, count: usize, phase: Phase) -> Rewriter {
    Rewriter { node_count, id, count, phase }
}

#[test]
fn empty_model_is_finished_at_once() {
    let (_, action) = Rewriter::start(0);
    assert_eq!(action, Action::Finish(0));
}

#[test]
fn nodes_are_inspected_in_order() {
    let (mut r, action) = Rewriter::start(3);
    assert_eq!(action, Action::Inspect(0));
    assert_eq!(r.step(Event::Node(NodeKind::Other)), Action::Inspect(1));
    assert_eq!(
        r.step(Event::Node(NodeKind::Scatter { reduces: true, inputs: 3 })),
        Action::Inspect(2)
    );
    // Nothing was replaced, so there is nothing to clean up.
    assert_eq!(
        r.step(Event::Node(NodeKind::Scatter { reduces: false, inputs: 2 })),
        Action::Finish(0)
    );
}

#[test]
fn constant_scatter_is_replaced() {
    let (mut r, action) = Rewriter::start(1);
    assert_eq!(action, Action::Inspect(0));
    assert_eq!(r.step(Event::Node(SCATTER)), Action::ReadShape(0));
    assert_eq!(r.step(Event::Shape(Some(vec![3, 4]))), Action::ReadIndices(0));
    let indices = Arc::new(ints(&[2, 1], &[2, 0]));
    assert_eq!(
        r.step(Event::Indices(Some(indices))),
        Action::Replace(0, plan(&[(8, 0), (0, 4)], 4))
    );
    assert_eq!(r.step(Event::Replaced), Action::Declutter);
    assert_eq!(r.step(Event::Decluttered), Action::Finish(1));
}

#[test]
fn open_shapes_and_indices_are_passed_over() {
    let mut r = at(5, 1, 0, Phase::ReadingShape);
    assert_eq!(r.step(Event::Shape(None)), Action::Inspect(2));
    let mut r = at(5, 1, 1, Phase::ReadingIndices(vec![2, 2]));
    assert_eq!(r.step(Event::Indices(None)), Action::Inspect(2));
    let mut r = at(2, 1, 1, Phase::ReadingIndices(vec![2, 2]));
    assert_eq!(r.step(Event::Indices(None)), Action::Declutter);
}

#[test]
fn bad_indices_end_the_rewriting() {
    let mut r = at(5, 1, 1, Phase::ReadingIndices(vec![2, 2]));
    assert_eq!(
        r.step(Event::Indices(Some(Arc::new(ints(&[1, 1], &[-1]))))),
        Action::Fail(PlanError::NegativeIndex)
    );
}

#[test]
fn replaced_nodes_are_counted_to_the_end() {
    // Every other node is a scatter.
    let (mut r, mut action) = Rewriter::start(7);
    let mut steps = 0;
    let mut inspected: Vec<usize> = Vec::new();
    let count = loop {
        steps += 1;
        assert!(steps < 5 * 7 + 5);
        if let Action::Inspect(id) = action {
            inspected.push(id);
        }
        action = match action {
            Action::Inspect(id) if id % 2 == 1 => r.step(Event::Node(SCATTER)),
            Action::Inspect(_) => r.step(Event::Node(NodeKind::Other)),
            Action::ReadShape(_) => r.step(Event::Shape(Some(vec![2, 2]))),
            Action::ReadIndices(_) => {
                r.step(Event::Indices(Some(Arc::new(ints(&[1, 1], &[1])))))
            }
            Action::Replace(_, p) => {
                assert_eq!(p, plan(&[(2, 0)], 2));
                r.step(Event::Replaced)
            }
            Action::Declutter => r.step(Event::Decluttered),
            Action::Finish(count) => break count,
            Action::Fail(e) => panic!("{e:?}"),
        };
    };
    assert_eq!(count, 3);
    assert_eq!(inspected, vec![0, 1, 2, 3, 4, 5, 6]);
}

/// Nodes that are scatters with the given indices, or nothing of interest.
struct Nodes {
    indices: Vec<Option<i64>>,
    fails_at: Option<usize>,
    log: Vec<String>,
}

impl Nodes {
    fn new(indices: &[Option<i64>]) -> Self {
        Nodes { indices: indices.to_vec(), fails_at: None, log: Vec::new() }
    }
}

impl Graph for Nodes {
    type Error = String;

    fn node_count(&self) -> usize {
        self.indices.len()
    }
    fn kind(&self, id: usize) -> NodeKind {
        if self.indices[id].is_some() {
            SCATTER
        } else {
            NodeKind::Other
        }
    }
    fn data_shape(&self, id: usize) -> Result<Option<Vec<usize>>, String> {
        if self.fails_at == Some(id) {
            return Err(format!("no fact for {id}"));
        }
        Ok(Some(vec![2, 2]))
    }
    fn indices(&self, id: usize) -> Result<Option<Arc<Tensor>>, String> {
        Ok(self.indices[id].map(|i| Arc::new(ints(&[1, 1], &[i]))))
    }
    fn replaced(mut self, id: usize, p: FastScatterConst) -> (Self, Result<(), String>) {
        self.log.push(format!("replace {id} {:?}", p.blocks));
        (self, Ok(()))
    }
    fn decluttered(mut self) -> (Self, Result<(), String>) {
        self.log.push("declutter".to_string());
        (self, Ok(()))
    }
}

#[test]
fn graph_is_rewritten_and_cleaned_up() {
    let (graph, count) = replace_const_scatternd(Nodes::new(&[None, Some(1), None, Some(0)]));
    assert!(matches!(count, Ok(2)));
    assert_eq!(graph.log, vec!["replace 1 [(2, 0)]", "replace 3 [(0, 0)]", "declutter"]);
}

#[test]
fn graph_without_scatters_is_left_alone() {
    let (graph, count) = replace_const_scatternd(Nodes::new(&[None, None]));
    assert!(matches!(count, Ok(0)));
    assert!(graph.log.is_empty());
}

#[test]
fn graph_stops_at_unusable_indices() {
    let (graph, count) = replace_const_scatternd(Nodes::new(&[Some(0), Some(-1), Some(1)]));
    assert!(matches!(count, Err(RewriteError::Plan(PlanError::NegativeIndex))));
    assert_eq!(graph.log, vec!["replace 0 [(0, 0)]"]);
}

#[test]
fn graph_stops_where_it_fails() {
    let nodes = Nodes { fails_at: Some(1), ..Nodes::new(&[Some(0), Some(1)]) };
    let (graph, count) = replace_const_scatternd(nodes);
    match count {
        Err(RewriteError::Graph(e)) => assert_eq!(e, "no fact for 1"),
        _ => panic!("the graph should fail"),
    }
    assert_eq!(graph.log, vec!["replace 0 [(0, 0)]"]);
}
