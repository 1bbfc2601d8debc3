//! The weights of the PatchCNN, and the order in which it looks at a board.
//!
//! The network is four convolutions of three by three and three linear layers, over the
//! patches of [`crate::probability::patch`]. A weights file starts with a mark that
//! identifies its layout, followed by one four-byte number after the other, least
//! significant byte first: for each layer its weights, then its biases. The numbers are
//! kept as the bits that were read: what they mean is up to the arithmetic that uses
//! them.

use vstd::prelude::*;
use crate::board::Minesweeper;
use crate::probability::patch;
use crate::probability::patch::{Fraction, PatchSource};
use crate::probability::setup;
use crate::text;

verus! {

/// How many convolutions there are, ahead of the linear layers.
pub const CONVS: usize = 4;

/// How many layers there are.
pub const LAYERS: usize = 7;

/// What went wrong reading a weights file.
#[derive(Debug, Clone, Copy, PartialEq, Eq, Structural)]
pub enum WeightsError {
    /// Not a PatchCNN weights file, or a layout that is not known here.
    BadMagic,
    /// The file holds a different number of values than the architecture wants.
    WrongLength { found: usize, expected: usize },
}

/// One layer: how it is shaped, and the bits of its numbers.
pub struct Layer {
    pub outputs: usize,
    pub inputs: usize,
    /// For each output, for each input, the taps of the kernel.
    pub weight: Vec<u32>,
    /// One for each output.
    pub bias: Vec<u32>,
}

/// A trained PatchCNN.
pub struct PatchCnn {
    pub convs: Vec<Layer>,
    pub linears: Vec<Layer>,
}

/// The eight bytes that a weights file starts with.
pub open spec fn magic() -> Seq<u8> {
    seq![77u8, 83, 80, 67, 78, 78, 49, 0]
}

/// Outputs, inputs, and weights for each pair of them, of a layer.
pub open spec fn shape(layer: int) -> (nat, nat, nat) {
    if layer == 0 {
        (32, 8, 9)
    } else if layer == 1 {
        (64, 32, 9)
    } else if layer == 2 {
        (64, 64, 9)
    } else if layer == 3 {
        (32, 64, 9)
    } else if layer == 4 {
        (128, 289, 1)
    } else if layer == 5 {
        (64, 128, 1)
    } else {
        (1, 64, 1)
    }
}

/// How many weights a layer has.
pub open spec fn weights(layer: int) -> nat {
    shape(layer).0 * shape(layer).1 * shape(layer).2
}

/// Where a layer starts among all values; after the last layer, how many there are.
pub open spec fn start(layer: int) -> nat
    decreases layer,
{
    if layer <= 0 {
        0
    } else {
        start(layer - 1) + weights(layer - 1) + shape(layer - 1).0
    }
}

/// The four-byte number at a place, least significant byte first.
pub open spec fn number(bytes: Seq<u8>, at: int) -> u32 {
    (bytes[at] + bytes[at + 1] * 256 + bytes[at + 2] * 65536 + bytes[at + 3] * 16777216) as u32
}

/// The values of a weights file: all whole numbers behind the mark.
pub open spec fn numbers(bytes: Seq<u8>) -> Seq<u32> {
    Seq::new(((bytes.len() - 8) / 4) as nat, |i: int| number(bytes, 8 + 4 * i))
}

/// Whether a file starts with the mark.
pub open spec fn marked(bytes: Seq<u8>) -> bool {
    bytes.len() >= 8 && bytes.take(8) == magic()
}

impl Layer {
    /// Whether this is a layer of the network, with the values that stand for it.
    pub open spec fn holds(self, layer: int, values: Seq<u32>) -> bool {
        let from = start(layer) as int;
        let mid = from + weights(layer);
        &&& self.outputs == shape(layer).0
        &&& self.inputs == shape(layer).1
        &&& self.weight@ == values.subrange(from, mid)
        &&& self.bias@ == values.subrange(mid, mid + shape(layer).0)
    }
}

impl PatchCnn {
    /// Whether this is the network with the given values.
    pub open spec fn holds(self, values: Seq<u32>) -> bool {
        &&& self.convs@.len() == 4
        &&& self.linears@.len() == 3
        &&& forall|i: int| 0 <= i < 4 ==> (#[trigger] self.convs@[i]).holds(i, values)
        &&& forall|i: int| 0 <= i < 3 ==> (#[trigger] self.linears@[i]).holds(i + 4, values)
    }
}

/// How many values the network has.
proof fn lemma_start()
    ensures
        start(7) == 121665,
        forall|layer: int| 0 <= layer < 7 ==> #[trigger] start(layer + 1) <= 121665,
{
    reveal_with_fuel(start, 8);
    assert(weights(0) == 32 * 8 * 9);
    assert(weights(1) == 64 * 32 * 9);
    assert(weights(2) == 64 * 64 * 9);
    assert(weights(3) == 32 * 64 * 9);
    assert(weights(4) == 128 * 289 * 1);
    assert(weights(5) == 64 * 128 * 1);
    assert(weights(6) == 1 * 64 * 1);
    assert forall|layer: int| 0 <= layer < 7 implies #[trigger] start(layer + 1) <= 121665 by {
        let k = layer + 1;
        assert(k == 1 || k == 2 || k == 3 || k == 4 || k == 5 || k == 6 || k == 7);
    }
}

/// Outputs, inputs, and weights for each pair of them, of a layer.
fn shape_of(layer: usize) -> (sizes: (usize, usize, usize))
    ensures
        sizes.0 == shape(layer as int).0,
        sizes.1 == shape(layer as int).1,
        sizes.2 == shape(layer as int).2,
        sizes.0 <= 128,
        sizes.1 <= 289,
        sizes.2 <= 9,
{
    if layer == 0 {
        (32, 8, 9)
    } else if layer == 1 {
        (64, 32, 9)
    } else if layer == 2 {
        (64, 64, 9)
    } else if layer == 3 {
        (32, 64, 9)
    } else if layer == 4 {
        (128, 289, 1)
    } else if layer == 5 {
        (64, 128, 1)
    } else {
        (1, 64, 1)
    }
}

/// Whether a file starts with the mark.
fn has_magic(bytes: &[u8]) -> (has: bool)
    ensures
        has == marked(bytes@),
{
    if bytes.len() < 8 {
        return false;
    }
    let has: bool = bytes[0] == 77 && bytes[1] == 83 && bytes[2] == 80 && bytes[3] == 67 && bytes[4]
        == 78 && bytes[5] == 78 && bytes[6] == 49 && bytes[7] == 0;
    proof {
        let head = bytes@.take(8);
        let m = magic();
        if has {
            assert(head =~= m);
        } else {
            assert(head[0] == bytes@[0] && head[1] == bytes@[1] && head[2] == bytes@[2] && head[3]
                == bytes@[3] && head[4] == bytes@[4] && head[5] == bytes@[5] && head[6] == bytes@[6]
                && head[7] == bytes@[7]);
            assert(m[0] == 77 && m[1] == 83 && m[2] == 80 && m[3] == 67 && m[4] == 78 && m[5] == 78
                && m[6] == 49 && m[7] == 0);
        }
    }
    has
}

/// Reads the values behind the mark.
fn read_numbers(bytes: &[u8]) -> (values: Vec<u32>)
    requires
        bytes@.len() >= 8,
    ensures
        values@ == numbers(bytes@),
{
    let len: usize = bytes.len();
    let count: usize = (len - 8) / 4;
    let mut values: Vec<u32> = Vec::new();
    for i in 0..count
        invariant
            len == bytes@.len(),
            len >= 8,
            count == (len - 8) / 4,
            values@ == numbers(bytes@).take(i as int),
    {
        let at: usize = 8 + 4 * i;
        let low: u32 = bytes[at] as u32 + bytes[at + 1] as u32 * 256;
        let high: u32 = bytes[at + 2] as u32 + bytes[at + 3] as u32 * 256;
        values.push(low + high * 65536);
        assert(values@ =~= numbers(bytes@).take(i + 1));
    }
    assert(numbers(bytes@).take(count as int) =~= numbers(bytes@));
    values
}

/// A stretch of values.
fn stretch(values: &Vec<u32>, from: usize, to: usize) -> (part: Vec<u32>)
    requires
        from <= to <= values@.len(),
    ensures
        part@ == values@.subrange(from as int, to as int),
{
    let mut part: Vec<u32> = Vec::new();
    for i in from..to
        invariant
            from <= to <= values@.len(),
            part@ == values@.subrange(from as int, i as int),
    {
        part.push(values[i]);
        assert(part@ =~= values@.subrange(from as int, i + 1));
    }
    part
}

/// Takes one layer out of all values.
fn read_layer(values: &Vec<u32>, layer: usize, at: usize) -> (result: (Layer, usize))
    requires
        values@.len() == 121665,
        layer < 7,
        at == start(layer as int),
    ensures
        result.0.holds(layer as int, values@),
        result.1 == start(layer + 1),
{
    proof {
        lemma_start();
        assert(start(layer + 1) <= 121665);
    }
    let (outputs, inputs, taps): (usize, usize, usize) = shape_of(layer);
    proof {
        let (o, i, t) = (outputs as int, inputs as int, taps as int);
        assert(0 <= o * i <= 128 * 289) by (nonlinear_arith)
            requires
                0 <= o <= 128,
                0 <= i <= 289,
        ;
        assert(0 <= o * i * t <= 128 * 289 * 9) by (nonlinear_arith)
            requires
                0 <= o * i <= 128 * 289,
                0 <= t <= 9,
        ;
    }
    let mid: usize = at + outputs * inputs * taps;
    let end: usize = mid + outputs;
    let weight: Vec<u32> = stretch(values, at, mid);
    let bias: Vec<u32> = stretch(values, mid, end);
    (Layer { outputs, inputs, weight, bias }, end)
}

impl PatchCnn {
    /// Reads a weights file.
    pub fn from_bytes(bytes: &[u8]) -> (result: Result<Self, WeightsError>)
        ensures
            match result {
                Ok(network) => {
                    &&& marked(bytes@)
                    &&& numbers(bytes@).len() == start(7)
                    &&& network.holds(numbers(bytes@))
                },
                Err(WeightsError::BadMagic) => !marked(bytes@),
                Err(WeightsError::WrongLength { found, expected }) => {
                    &&& marked(bytes@)
                    &&& found == numbers(bytes@).len()
                    &&& expected == start(7)
                    &&& found != expected
                },
            },
    {
        if !has_magic(bytes) {
            return Err(WeightsError::BadMagic);
        }
        proof {
            lemma_start();
        }
        let values: Vec<u32> = read_numbers(bytes);
        let expected: usize = 121665;
        if values.len() != expected {
            return Err(WeightsError::WrongLength { found: values.len(), expected });
        }
        let mut at: usize = 0;
        let mut convs: Vec<Layer> = Vec::new();
        for i in 0..CONVS
            invariant
                values@.len() == 121665,
                at == start(i as int),
                convs@.len() == i,
                forall|k: int| 0 <= k < i ==> (#[trigger] convs@[k]).holds(k, values@),
        {
            let (layer, next): (Layer, usize) = read_layer(&values, i, at);
            convs.push(layer);
            at = next;
        }
        let mut linears: Vec<Layer> = Vec::new();
        for i in CONVS..LAYERS
            invariant
                values@.len() == 121665,
                4 <= i,
                at == start(i as int),
                linears@.len() == i - 4,
                forall|k: int| 0 <= k < i - 4 ==> (#[trigger] linears@[k]).holds(k + 4, values@),
        {
            let (layer, next): (Layer, usize) = read_layer(&values, i, at);
            linears.push(layer);
            at = next;
        }
        Ok(Self { convs, linears })
    }
}

impl WeightsError {
    /// What went wrong, in words.
    pub open spec fn words(self) -> Seq<char> {
        match self {
            WeightsError::BadMagic => "not a PatchCNN weights file"@,
            WeightsError::WrongLength { found, expected } => "weights file holds "@ + text::decimal(
                found as nat,
            ) + " values, this network wants "@ + text::decimal(expected as nat),
        }
    }

    /// What went wrong, in words.
    pub fn to_string(&self) -> (message: String)
        ensures
            message@ == self.words(),
    {
        let mut out: String = String::new();
        match self {
            WeightsError::BadMagic => text::append_text(&mut out, "not a PatchCNN weights file"),
            WeightsError::WrongLength { found, expected } => {
                text::append_text(&mut out, "weights file holds ");
                text::append_decimal(&mut out, *found as u64);
                text::append_text(&mut out, " values, this network wants ");
                text::append_decimal(&mut out, *expected as u64);
            },
        }
        assert(out@ =~= self.words());
        out
    }
}

/// How many numbers some layers hold.
pub open spec fn sizes(layers: Seq<Layer>) -> nat
    decreases layers.len(),
{
    if layers.len() == 0 {
        0
    } else {
        sizes(layers.drop_last()) + layers.last().weight@.len() + layers.last().bias@.len()
    }
}

/// Counts the numbers that some layers hold, on top of those counted already.
fn add_sizes(layers: &Vec<Layer>, counted: u64) -> (total: u64)
    requires
        counted + sizes(layers@) <= u64::MAX,
    ensures
        total == counted + sizes(layers@),
{
    let mut total: u64 = counted;
    for i in 0..layers.len()
        invariant
            counted + sizes(layers@) <= u64::MAX,
            total == counted + sizes(layers@.take(i as int)),
    {
        proof {
            lemma_sizes(layers@, i + 1);
            assert(layers@.take(i + 1).drop_last() =~= layers@.take(i as int));
        }
        total = total + layers[i].weight.len() as u64 + layers[i].bias.len() as u64;
    }
    assert(layers@.take(layers@.len() as int) =~= layers@);
    total
}

/// The first few layers hold no more than all.
proof fn lemma_sizes(layers: Seq<Layer>, k: int)
    requires
        0 <= k <= layers.len(),
    ensures
        sizes(layers.take(k)) <= sizes(layers),
    decreases layers.len(),
{
    if k == layers.len() {
        assert(layers.take(k) =~= layers);
    } else {
        lemma_sizes(layers.drop_last(), k);
        assert(layers.drop_last().take(k) =~= layers.take(k));
    }
}

impl PatchCnn {
    /// How the shape of a network is written: not the weights, which no one wants to
    /// read.
    pub open spec fn shape_text(self) -> Seq<char> {
        "PatchCnn { "@ + text::decimal(self.convs@.len()) + " convolutions, "@ + text::decimal(
            self.linears@.len(),
        ) + " linear layers, "@ + text::decimal(sizes(self.convs@) + sizes(self.linears@))
            + " weights }"@
    }

    /// Writes down the shape of a network.
    pub fn to_string(&self) -> (out: String)
        requires
            sizes(self.convs@) + sizes(self.linears@) <= u64::MAX,
        ensures
            out@ == self.shape_text(),
    {
        let values: u64 = add_sizes(&self.linears, add_sizes(&self.convs, 0));
        let mut out: String = String::new();
        text::append_text(&mut out, "PatchCnn { ");
        text::append_decimal(&mut out, self.convs.len() as u64);
        text::append_text(&mut out, " convolutions, ");
        text::append_decimal(&mut out, self.linears.len() as u64);
        text::append_text(&mut out, " linear layers, ");
        text::append_decimal(&mut out, values);
        text::append_text(&mut out, " weights }");
        assert(out@ =~= self.shape_text());
        out
    }
}

/// The network has one number for each value that it was read from: none is dropped and
/// none is read twice.
pub proof fn law_every_value_has_its_place(network: PatchCnn, values: Seq<u32>, k: int)
    requires
        network.holds(values),
        values.len() == start(7),
        0 <= k < values.len(),
    ensures
        sizes(network.convs@) + sizes(network.linears@) == values.len(),
        exists|layer: int|
            0 <= layer < 7 && #[trigger] start(layer) <= k < start(layer + 1),
{
    lemma_start();
    reveal_with_fuel(start, 8);
    reveal_with_fuel(sizes, 5);
    let c = network.convs@;
    let l = network.linears@;
    assert(c[0].holds(0, values) && c[1].holds(1, values) && c[2].holds(2, values) && c[3].holds(
        3,
        values,
    ));
    assert(l[0].holds(4, values) && l[1].holds(5, values) && l[2].holds(6, values));
    assert(sizes(c) == start(4)) by {
        assert(c.drop_last().drop_last().drop_last().drop_last().len() == 0);
    }
    assert(sizes(l) == start(7) - start(4)) by {
        assert(l.drop_last().drop_last().drop_last().len() == 0);
    }
    if k < start(1) {
        assert(start(0) <= k);
    } else if k < start(2) {
        assert(start(1) <= k);
    } else if k < start(3) {
        assert(start(2) <= k);
    } else if k < start(4) {
        assert(start(3) <= k);
    } else if k < start(5) {
        assert(start(4) <= k);
    } else if k < start(6) {
        assert(start(5) <= k);
    } else {
        assert(start(6) <= k < start(7));
    }
}

// ---------------------------------------------------------------------------
// Looking at a board
// ---------------------------------------------------------------------------

/// The cells that the network scores: all but those that are open.
pub fn cells_to_score(game: &Minesweeper) -> (cells: Vec<(usize, usize)>)
    requires
        game.wf(),
    ensures
        cells@ == setup::unopened(*game),
{
    setup::list_unopened(game)
}

/// The cells that the network learns from once the exact probabilities are known: those
/// that are neither open nor flagged.
pub fn cells_to_learn(game: &Minesweeper) -> (cells: Vec<(usize, usize)>)
    requires
        game.wf(),
    ensures
        cells@ == patch::hidden_cells(*game),
{
    patch::list_hidden(game)
}

/// A scoring pass over a board, done a few cells at a time.
pub struct BoardScorer {
    /// The board as it was when the pass began.
    pub source: PatchSource,
    /// The cells to score, row by row.
    pub cells: Vec<(usize, usize)>,
    /// How many of them have been handed out.
    pub next: usize,
}

impl BoardScorer {
    /// No more cells were handed out than there are.
    pub open spec fn wf(self) -> bool {
        self.source.wf() && self.next <= self.cells@.len()
    }

    /// The cells still to do.
    pub open spec fn left(self) -> Seq<(usize, usize)> {
        self.cells@.skip(self.next as int)
    }

    /// Begins a pass over all unopened cells.
    pub fn new(game: &Minesweeper) -> (scorer: Self)
        requires
            game.wf(),
            game.width * game.height <= usize::MAX,
        ensures
            scorer.wf(),
            scorer.source.describes(*game),
            scorer.left() == setup::unopened(*game),
    {
        let scorer = Self { source: PatchSource::new(game), cells: cells_to_score(game), next: 0 };
        assert(scorer.left() =~= scorer.cells@);
        scorer
    }

    /// How many cells are still to do.
    pub fn remaining(&self) -> (count: usize)
        requires
            self.wf(),
        ensures
            count == self.left().len(),
    {
        self.cells.len() - self.next
    }

    /// Hands out up to `budget` more cells, each with its patch.
    pub fn step(&mut self, budget: usize) -> (batch: Vec<((usize, usize), Vec<Fraction>)>)
        requires
            old(self).wf(),
        ensures
            final(self).wf(),
            final(self).source == old(self).source,
            final(self).cells == old(self).cells,
            batch@.len() == if budget < old(self).left().len() {
                budget as nat
            } else {
                old(self).left().len()
            },
            final(self).left() == old(self).left().skip(batch@.len() as int),
            forall|i: int|
                0 <= i < batch@.len() ==> (#[trigger] batch@[i]).0 == old(self).left()[i]
                    && batch@[i].1@ == old(self).source.patch(
                    batch@[i].0.0 as int,
                    batch@[i].0.1 as int,
                ),
    {
        let ghost before = *self;
        let total: usize = self.cells.len();
        let left: usize = total - self.next;
        let count: usize = if budget < left {
            budget
        } else {
            left
        };
        let mut batch: Vec<((usize, usize), Vec<Fraction>)> = Vec::new();
        for i in 0..count
            invariant
                *self == before,
                before.wf(),
                total == before.cells@.len(),
                count <= total - before.next,
                batch@.len() == i,
                forall|k: int|
                    0 <= k < i ==> (#[trigger] batch@[k]).0 == before.left()[k] && batch@[k].1@
                        == before.source.patch(batch@[k].0.0 as int, batch@[k].0.1 as int),
        {
            let cell: (usize, usize) = self.cells[self.next + i];
            batch.push((cell, self.source.fill(cell.0, cell.1)));
        }
        self.next = self.next + count;
        assert(self.left() =~= before.left().skip(count as int));
        batch
    }
}

/// A value of a weights file is its four bytes, the least significant first, and the values
/// stand behind the mark, one after the other.
pub proof fn law_values_keep_their_bytes(bytes: Seq<u8>, i: int)
    requires
        bytes.len() >= 8,
        0 <= i,
        8 + 4 * i + 3 < bytes.len(),
    ensures
        i < numbers(bytes).len(),
        numbers(bytes)[i] as int == bytes[8 + 4 * i] + 0x100 * bytes[9 + 4 * i] + 0x10000
            * bytes[10 + 4 * i] + 0x1000000 * bytes[11 + 4 * i],
{
    assert(bytes[8 + 4 * i] <= 255 && bytes[9 + 4 * i] <= 255);
    assert(bytes[10 + 4 * i] <= 255 && bytes[11 + 4 * i] <= 255);
}

} // verus!
