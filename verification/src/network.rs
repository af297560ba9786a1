//! The layout of the quantised network file that the engine loads.

use crate::config::{HIDDEN_SIZE, INPUT_SIZE, QA, QB};
use vstd::prelude::*;

verus! {

/// A tensor of the network file: its name, its number of values and the factor by which they are
/// multiplied before they are rounded to 16 bits.
pub struct Tensor {
    pub name: &'static str,
    pub len: usize,
    pub factor: i16,
}

/// The number of values in the tensors.
pub open spec fn values_in(tensors: Seq<Tensor>) -> nat
    decreases tensors.len(),
{
    if tensors.len() == 0 {
        0
    } else {
        values_in(tensors.drop_last()) + tensors.last().len as nat
    }
}

/// The tensors of the network file, in the order in which it holds them: weights and biases of
/// the feature transformer, then weights and bias of the output, whose bias carries both factors.
pub open spec fn layout() -> Seq<Tensor> {
    seq![
        Tensor { name: "l0w", len: (INPUT_SIZE * HIDDEN_SIZE) as usize, factor: QA },
        Tensor { name: "l0b", len: HIDDEN_SIZE, factor: QA },
        Tensor { name: "l1w", len: (2 * HIDDEN_SIZE) as usize, factor: QB },
        Tensor { name: "l1b", len: 1, factor: (QA * QB) as i16 },
    ]
}

proof fn lemma_layout_size()
    ensures
        2 * values_in(layout()) == 1_579_010,
{
    assert(768 * 1024 == 786_432) by (nonlinear_arith);
    let s = layout();
    assert(s.drop_last().drop_last().drop_last().drop_last() == Seq::<Tensor>::empty());
    reveal_with_fuel(values_in, 5);
}

/// The tensors of the network file, which take 1,579,010 bytes.
pub fn saved_tensors() -> (tensors: Vec<Tensor>)
    ensures
        tensors@ == layout(),
        2 * values_in(tensors@) == 1_579_010,
        tensors@[3].factor == QA * QB,
{
    proof {
        lemma_layout_size();
    }
    let mut tensors: Vec<Tensor> = Vec::new();
    tensors.push(Tensor { name: "l0w", len: INPUT_SIZE * HIDDEN_SIZE, factor: QA });
    tensors.push(Tensor { name: "l0b", len: HIDDEN_SIZE, factor: QA });
    tensors.push(Tensor { name: "l1w", len: 2 * HIDDEN_SIZE, factor: QB });
    tensors.push(Tensor { name: "l1b", len: 1, factor: QA * QB });
    assert(tensors@ =~= layout());
    tensors
}

}
