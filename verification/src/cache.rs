//! What is carried from one position of a text to the next: the keys and values of the attention
//! blocks, and the state of the recurrent blocks.

use crate::arith;
use crate::config::ModelConfig;
use crate::elementwise::build;
use crate::sequences;
use crate::shape;
use crate::tensor::{self, Tensor};
use vstd::prelude::*;
use vstd::slice::slice_to_vec;

verus! {

/// The number of positions that the convolution of a recurrent block looks at.
pub const CONV_KERNEL: usize = 4;

/// The upper left `rows` rows and `cols` columns of a matrix of `width` columns.
pub open spec fn corner<T>(elems: Seq<T>, width: int, rows: int, cols: int) -> Seq<T> {
    Seq::new((rows * cols) as nat, |e: int| elems[e / cols * width + e % cols])
}

/// A matrix is its own corner.
pub proof fn lemma_whole_corner<T>(elems: Seq<T>, rows: int, cols: int)
    requires
        rows >= 0,
        cols >= 0,
        elems.len() == rows * cols,
    ensures
        corner(elems, cols, rows, cols) == elems,
{
    assert forall|e: int| 0 <= e < elems.len() implies corner(elems, cols, rows, cols)[e]
        == elems[e] by {
        shape::lemma_uncell(e, rows, cols);
    }
    assert(corner(elems, cols, rows, cols) =~= elems);
}

/// A corner has the elements of the matrix in the same rows and columns.
pub proof fn law_corner<T>(elems: Seq<T>, width: int, rows: int, cols: int, i: int, j: int)
    requires
        0 <= i < rows,
        0 <= j < cols,
    ensures
        corner(elems, width, rows, cols).len() == rows * cols,
        corner(elems, width, rows, cols)[i * cols + j] == elems[i * width + j],
{
    shape::lemma_cell(i, j, rows, cols);
}

/// Rows of `width` items each, one behind the other.
pub proof fn lemma_flat<T>(rows: Seq<Seq<T>>, width: int)
    requires
        width >= 0,
        forall|i: int| 0 <= i < rows.len() ==> (#[trigger] rows[i]).len() == width,
    ensures
        sequences::flat(rows).len() == rows.len() * width,
        forall|i: int|
            0 <= i < rows.len() ==> tensor::row(sequences::flat(rows), width, i)
                == #[trigger] rows[i],
    decreases rows.len(),
{
    if rows.len() == 0 {
        assert(0 * width == 0) by (nonlinear_arith);
    } else {
        let front = rows.drop_last();
        let n = front.len() as int;
        lemma_flat(front, width);
        assert((n + 1) * width == n * width + width) by (nonlinear_arith);
        let all = sequences::flat(rows);
        assert forall|i: int| 0 <= i < rows.len() implies tensor::row(all, width, i)
            == #[trigger] rows[i] by {
            if i < n {
                assert(rows[i] == front[i]);
                assert(0 <= i * width && i * width + width <= n * width) by (nonlinear_arith)
                    requires
                        0 <= i < n,
                        width >= 0,
                ;
                let part = tensor::row(sequences::flat(front), width, i);
                assert(tensor::row(all, width, i) =~= part);
            } else {
                assert(tensor::row(sequences::flat(rows), width, i) =~= rows.last());
            }
        }
    }
}

/// For each layer a table of rows.
struct Bank<T> {
    layers: Vec<Vec<Vec<T>>>,
}

spec fn views<T>(rows: Seq<Vec<T>>) -> Seq<Seq<T>> {
    rows.map_values(|r: Vec<T>| r@)
}

impl<T> View for Bank<T> {
    type V = Seq<Seq<Seq<T>>>;

    closed spec fn view(&self) -> Seq<Seq<Seq<T>>> {
        self.layers@.map_values(|rows: Vec<Vec<T>>| views(rows@))
    }
}

/// Tables of `rows` rows of `width` items for `layers` layers.
pub open spec fn tables<T>(bank: Seq<Seq<Seq<T>>>, layers: int, rows: int, width: int) -> bool {
    &&& bank.len() == layers
    &&& forall|l: int| 0 <= l < layers ==> (#[trigger] bank[l]).len() == rows
    &&& forall|l: int, i: int|
        0 <= l < layers && 0 <= i < rows ==> (#[trigger] bank[l][i]).len() == width
}

impl<T: Copy> Bank<T> {
    fn zeros(layers: usize, rows: usize, width: usize) -> (r: Self) where T: Default
        ensures
            tables(r@, layers as int, rows as int, width as int),
            forall|l: int, i: int, e: int|
                0 <= l < layers && 0 <= i < rows && 0 <= e < width ==> arith::zero(
                    #[trigger] r@[l][i][e],
                ),
    {
        let mut all: Vec<Vec<Vec<T>>> = Vec::new();
        while all.len() < layers
            invariant
                all@.len() <= layers,
                forall|l: int| 0 <= l < all@.len() ==> (#[trigger] all@[l])@.len() == rows,
                forall|l: int, i: int|
                    0 <= l < all@.len() && 0 <= i < rows ==> (#[trigger] all@[l]@[i])@.len()
                        == width,
                forall|l: int, i: int, e: int|
                    0 <= l < all@.len() && 0 <= i < rows && 0 <= e < width ==> arith::zero(
                        #[trigger] all@[l]@[i]@[e],
                    ),
            decreases layers - all@.len(),
        {
            let mut table: Vec<Vec<T>> = Vec::new();
            while table.len() < rows
                invariant
                    table@.len() <= rows,
                    forall|i: int| 0 <= i < table@.len() ==> (#[trigger] table@[i])@.len() == width,
                    forall|i: int, e: int|
                        0 <= i < table@.len() && 0 <= e < width ==> arith::zero(
                            #[trigger] table@[i]@[e],
                        ),
                decreases rows - table@.len(),
            {
                let row = build(
                    width,
                    |e: usize| -> (z: T)
                        ensures
                            arith::zero(z)
                    { T::default() },
                );
                table.push(row);
            }
            all.push(table);
        }
        Bank { layers: all }
    }

    fn store(&mut self, layer: usize, i: usize, row: Vec<T>)
        requires
            layer < old(self)@.len(),
            i < old(self)@[layer as int].len(),
        ensures
            final(self)@ == old(self)@.update(
                layer as int,
                old(self)@[layer as int].update(i as int, row@),
            ),
    {
        self.layers[layer][i] = row;
        assert(self@ =~= old(self)@.update(
            layer as int,
            old(self)@[layer as int].update(i as int, row@),
        )) by {
            assert(self@[layer as int] =~= old(self)@[layer as int].update(i as int, row@));
        }
    }

    fn load(&self, layer: usize, i: usize) -> (r: &Vec<T>)
        requires
            layer < self@.len(),
            i < self@[layer as int].len(),
        ensures
            r@ == self@[layer as int][i as int],
    {
        &self.layers[layer][i]
    }

    fn load_up_to(&self, layer: usize, n: usize) -> (r: Vec<T>)
        requires
            layer < self@.len(),
            n <= self@[layer as int].len(),
        ensures
            r@ == sequences::flat(self@[layer as int].take(n as int)),
    {
        let mut r: Vec<T> = Vec::new();
        let mut i: usize = 0;
        let ghost rows = self@[layer as int];
        while i < n
            invariant
                layer < self@.len(),
                rows == self@[layer as int],
                i <= n <= rows.len(),
                r@ == sequences::flat(rows.take(i as int)),
            decreases n - i,
        {
            let mut row = slice_to_vec(self.load(layer, i).as_slice());
            r.append(&mut row);
            assert(rows.take(i + 1).drop_last() =~= rows.take(i as int));
            i += 1;
        }
        r
    }
}

/// The tables with one row of one of them replaced.
pub open spec fn replaced<T>(
    bank: Seq<Seq<Seq<T>>>,
    layer: int,
    i: int,
    row: Seq<T>,
) -> Seq<Seq<Seq<T>>> {
    bank.update(layer, bank[layer].update(i, row))
}

/// Replacing a row sets this row and leaves every other one as it was.
pub proof fn law_replaced<T>(
    bank: Seq<Seq<Seq<T>>>,
    layers: int,
    rows: int,
    width: int,
    layer: int,
    i: int,
    row: Seq<T>,
    l: int,
    k: int,
)
    requires
        tables(bank, layers, rows, width),
        0 <= layer < layers,
        0 <= i < rows,
        0 <= l < layers,
        0 <= k < rows,
    ensures
        replaced(bank, layer, i, row)[l][k] == if l == layer && k == i {
            row
        } else {
            bank[l][k]
        },
{
}

/// What is read back of tables one row of which was replaced: this row at its place, and every
/// other row as it was.
pub proof fn law_read_back<T>(
    bank: Seq<Seq<Seq<T>>>,
    layers: int,
    rows: int,
    width: int,
    layer: int,
    i: int,
    row: Seq<T>,
    l: int,
    n: int,
    k: int,
)
    requires
        tables(bank, layers, rows, width),
        width >= 0,
        0 <= layer < layers,
        0 <= i < rows,
        row.len() == width,
        0 <= l < layers,
        0 <= k < n <= rows,
    ensures
        tables(replaced(bank, layer, i, row), layers, rows, width),
        tensor::row(
            sequences::flat(replaced(bank, layer, i, row)[l].take(n)),
            width,
            k,
        ) == if l == layer && k == i {
            row
        } else {
            bank[l][k]
        },
{
    let after = replaced(bank, layer, i, row);
    lemma_replaced(bank, layers, rows, width, layer, i, row);
    let front = after[l].take(n);
    assert forall|b: int| 0 <= b < front.len() implies (#[trigger] front[b]).len() == width by {
        assert(front[b] == after[l][b]);
    }
    lemma_flat(front, width);
    assert(tensor::row(sequences::flat(front), width, k) == front[k]);
}

/// The keys and values of the positions so far, for each layer.
pub struct KVCache<T> {
    keys: Bank<T>,
    values: Bank<T>,
    max_seq_len: usize,
}

impl<T: Copy> KVCache<T> {
    /// The keys by layer and position.
    pub closed spec fn keys(&self) -> Seq<Seq<Seq<T>>> {
        self.keys@
    }

    /// The values by layer and position.
    pub closed spec fn values(&self) -> Seq<Seq<Seq<T>>> {
        self.values@
    }

    /// The number of positions that there is room for.
    pub closed spec fn positions(&self) -> usize {
        self.max_seq_len
    }

    /// For each layer there is a key and a value at each position.
    pub open spec fn wf(&self, config: &ModelConfig) -> bool {
        let width = config.n_kv_heads * config.head_dim;
        &&& shape::fits(seq![self.positions(), config.n_kv_heads, config.head_dim])
        &&& tables(self.keys(), config.n_layers as int, self.positions() as int, width)
        &&& tables(self.values(), config.n_layers as int, self.positions() as int, width)
    }

    /// A cache with room for `max_seq_len` positions, filled with zeros.
    pub fn new(config: &ModelConfig, max_seq_len: usize) -> (r: Self) where T: Default
        requires
            shape::fits(seq![max_seq_len, config.n_kv_heads, config.head_dim]),
        ensures
            r.wf(config),
            r.positions() == max_seq_len,
            forall|l: int, p: int, e: int|
                0 <= l < config.n_layers && 0 <= p < max_seq_len && 0 <= e < config.n_kv_heads
                    * config.head_dim ==> arith::zero(#[trigger] r.keys()[l][p][e]),
            forall|l: int, p: int, e: int|
                0 <= l < config.n_layers && 0 <= p < max_seq_len && 0 <= e < config.n_kv_heads
                    * config.head_dim ==> arith::zero(#[trigger] r.values()[l][p][e]),
    {
        proof {
            if max_seq_len > 0 {
                shape::lemma_row_fits(max_seq_len, config.n_kv_heads, config.head_dim);
            }
        }
        let width = if max_seq_len > 0 {
            config.n_kv_heads * config.head_dim
        } else {
            0
        };
        KVCache {
            keys: Bank::zeros(config.n_layers, max_seq_len, width),
            values: Bank::zeros(config.n_layers, max_seq_len, width),
            max_seq_len,
        }
    }

    /// Sets the key and the value of one position of a layer, each given as a matrix with a row
    /// for each head.
    pub fn update(
        &mut self,
        config: &ModelConfig,
        layer: usize,
        pos: usize,
        k: &Tensor<T>,
        v: &Tensor<T>,
    )
        requires
            old(self).wf(config),
            layer < config.n_layers,
            pos < old(self).positions(),
            k.wf(),
            k.dims().len() == 2,
            k.dims()[0] >= config.n_kv_heads,
            k.dims()[1] >= config.head_dim,
            v.wf(),
            v.dims().len() == 2,
            v.dims()[0] >= config.n_kv_heads,
            v.dims()[1] >= config.head_dim,
        ensures
            final(self).wf(config),
            final(self).positions() == old(self).positions(),
            final(self).keys() == replaced(
                old(self).keys(),
                layer as int,
                pos as int,
                corner(
                    k.elems(),
                    k.dims()[1] as int,
                    config.n_kv_heads as int,
                    config.head_dim as int,
                ),
            ),
            final(self).values() == replaced(
                old(self).values(),
                layer as int,
                pos as int,
                corner(
                    v.elems(),
                    v.dims()[1] as int,
                    config.n_kv_heads as int,
                    config.head_dim as int,
                ),
            ),
    {
        proof {
            shape::lemma_row_fits(self.positions(), config.n_kv_heads, config.head_dim);
        }
        let key = corner_of(k, config.n_kv_heads, config.head_dim);
        let value = corner_of(v, config.n_kv_heads, config.head_dim);
        self.keys.store(layer, pos, key);
        self.values.store(layer, pos, value);
        proof {
            let width = config.n_kv_heads * config.head_dim;
            lemma_replaced(
                old(self).keys(),
                config.n_layers as int,
                self.positions() as int,
                width,
                layer as int,
                pos as int,
                key@,
            );
            lemma_replaced(
                old(self).values(),
                config.n_layers as int,
                self.positions() as int,
                width,
                layer as int,
                pos as int,
                value@,
            );
        }
    }

    /// The keys of the first `seq_len` positions of a layer.
    pub fn get_keys_up_to(&self, layer: usize, seq_len: usize, config: &ModelConfig) -> (r: Tensor<
        T,
    >)
        requires
            self.wf(config),
            layer < config.n_layers,
            seq_len <= self.positions(),
        ensures
            r.wf(),
            r.dims() == seq![seq_len, config.n_kv_heads, config.head_dim],
            r.elems() == sequences::flat(self.keys()[layer as int].take(seq_len as int)),
    {
        let data = self.keys.load_up_to(layer, seq_len);
        let shape = vec![seq_len, config.n_kv_heads, config.head_dim];
        proof {
            let (n, h, d) = (seq_len as int, config.n_kv_heads as int, config.head_dim as int);
            let rows = self.keys()[layer as int].take(n);
            assert forall|i: int| 0 <= i < rows.len() implies (#[trigger] rows[i]).len() == h
                * d by {
                assert(rows[i] == self.keys()[layer as int][i]);
            }
            assert(h * d >= 0) by (nonlinear_arith)
                requires
                    h >= 0,
                    d >= 0,
            ;
            lemma_flat(rows, h * d);
            assert(shape@ =~= seq![seq_len, config.n_kv_heads, config.head_dim]);
            shape::lemma_fewer_rows(self.positions(), seq_len, config.n_kv_heads, config.head_dim);
            shape::lemma_cube_shape(shape@);
            assert(n * h * d == n * (h * d)) by (nonlinear_arith);
        }
        Tensor::from_vec(data, shape)
    }

    /// The values of the first `seq_len` positions of a layer.
    pub fn get_values_up_to(&self, layer: usize, seq_len: usize, config: &ModelConfig) -> (r: Tensor<
        T,
    >)
        requires
            self.wf(config),
            layer < config.n_layers,
            seq_len <= self.positions(),
        ensures
            r.wf(),
            r.dims() == seq![seq_len, config.n_kv_heads, config.head_dim],
            r.elems() == sequences::flat(self.values()[layer as int].take(seq_len as int)),
    {
        let data = self.values.load_up_to(layer, seq_len);
        let shape = vec![seq_len, config.n_kv_heads, config.head_dim];
        proof {
            let (n, h, d) = (seq_len as int, config.n_kv_heads as int, config.head_dim as int);
            let rows = self.values()[layer as int].take(n);
            assert forall|i: int| 0 <= i < rows.len() implies (#[trigger] rows[i]).len() == h
                * d by {
                assert(rows[i] == self.values()[layer as int][i]);
            }
            assert(h * d >= 0) by (nonlinear_arith)
                requires
                    h >= 0,
                    d >= 0,
            ;
            lemma_flat(rows, h * d);
            assert(shape@ =~= seq![seq_len, config.n_kv_heads, config.head_dim]);
            shape::lemma_fewer_rows(self.positions(), seq_len, config.n_kv_heads, config.head_dim);
            shape::lemma_cube_shape(shape@);
            assert(n * h * d == n * (h * d)) by (nonlinear_arith);
        }
        Tensor::from_vec(data, shape)
    }
}

proof fn lemma_replaced<T>(
    bank: Seq<Seq<Seq<T>>>,
    layers: int,
    rows: int,
    width: int,
    layer: int,
    i: int,
    row: Seq<T>,
)
    requires
        tables(bank, layers, rows, width),
        0 <= layer < layers,
        0 <= i < rows,
        row.len() == width,
    ensures
        tables(replaced(bank, layer, i, row), layers, rows, width),
{
    let after = replaced(bank, layer, i, row);
    assert forall|a: int, b: int| 0 <= a < layers && 0 <= b < rows implies (
    #[trigger] after[a][b]).len() == width by {
        assert(bank[a][b].len() == width);
    }
}

/// The upper left `rows` rows and `cols` columns of a matrix.
fn corner_of<T: Copy>(t: &Tensor<T>, rows: usize, cols: usize) -> (r: Vec<T>)
    requires
        t.wf(),
        t.dims().len() == 2,
        t.dims()[0] >= rows,
        t.dims()[1] >= cols,
        rows * cols <= usize::MAX,
    ensures
        r@ == corner(t.elems(), t.dims()[1] as int, rows as int, cols as int),
        r@.len() == rows * cols,
{
    let ghost (h, w) = (rows as int, cols as int);
    let r = build(
        rows * cols,
        |e: usize| -> (x: T)
            requires
                e < h * w
            ensures
                x == t.elems()[e as int / w * t.dims()[1] + e as int % w]
        {
            proof {
                shape::lemma_uncell(e as int, h, w);
            }
            t[(e / cols, e % cols)]
        },
    );
    assert(h * w >= 0) by (nonlinear_arith)
        requires
            h >= 0,
            w >= 0,
    ;
    assert(r@ =~= corner(t.elems(), t.dims()[1] as int, h, w));
    r
}

/// The rows behind the first one, and `row` behind them.
pub open spec fn shifted<T>(rows: Seq<Seq<T>>, row: Seq<T>) -> Seq<Seq<T>> {
    rows.skip(1).push(row)
}

/// After as many inputs as the convolution looks back on, these and no others are remembered.
pub proof fn law_history_is_latest<T>(rows: Seq<Seq<T>>, a: Seq<T>, b: Seq<T>, c: Seq<T>)
    requires
        rows.len() == CONV_KERNEL - 1,
    ensures
        shifted(shifted(shifted(rows, a), b), c) == seq![a, b, c],
{
    assert(shifted(shifted(shifted(rows, a), b), c) =~= seq![a, b, c]);
}

/// The state of the recurrent blocks: for each layer and group a square matrix, and for each
/// layer the latest inputs of its convolution.
pub struct SSMState<T> {
    states: Bank<T>,
    history: Bank<T>,
}

impl<T: Copy> SSMState<T> {
    /// The matrices by layer and group, each in row-major order.
    pub closed spec fn states(&self) -> Seq<Seq<Seq<T>>> {
        self.states@
    }

    /// The latest inputs of the convolution by layer, the oldest first.
    pub closed spec fn history(&self) -> Seq<Seq<Seq<T>>> {
        self.history@
    }

    /// There is a matrix for each layer and group, and for each layer an input of the convolution
    /// for each position before the current one that it looks at.
    pub open spec fn wf(&self, config: &ModelConfig) -> bool {
        let (groups, size) = (config.ssm_group_count as int, config.ssm_state_size as int);
        &&& tables(self.states(), config.n_layers as int, groups, size * size)
        &&& tables(self.history(), config.n_layers as int, CONV_KERNEL - 1, 3 * (groups * size))
    }

    /// A state of zeros.
    pub fn new(config: &ModelConfig) -> (r: Self) where T: Default
        requires
            config.ssm_state_size * config.ssm_state_size <= usize::MAX,
            3 * (config.ssm_group_count * config.ssm_state_size) <= usize::MAX,
        ensures
            r.wf(config),
            forall|l: int, g: int, e: int|
                0 <= l < config.n_layers && 0 <= g < config.ssm_group_count && 0 <= e
                    < config.ssm_state_size * config.ssm_state_size ==> arith::zero(
                    #[trigger] r.states()[l][g][e],
                ),
            forall|l: int, i: int, e: int|
                0 <= l < config.n_layers && 0 <= i < CONV_KERNEL - 1 && 0 <= e < 3 * (
                config.ssm_group_count * config.ssm_state_size) ==> arith::zero(
                    #[trigger] r.history()[l][i][e],
                ),
    {
        let size = config.ssm_state_size;
        let groups = config.ssm_group_count;
        assert(groups * size >= 0) by (nonlinear_arith)
            requires
                groups >= 0,
                size >= 0,
        ;
        SSMState {
            states: Bank::zeros(config.n_layers, groups, size * size),
            history: Bank::zeros(config.n_layers, CONV_KERNEL - 1, 3 * (groups * size)),
        }
    }

    /// The matrix of a group.
    pub fn get_group_state(&self, layer: usize, group: usize, config: &ModelConfig) -> (r: Tensor<T>)
        requires
            self.wf(config),
            layer < config.n_layers,
            group < config.ssm_group_count,
            config.ssm_state_size * config.ssm_state_size <= usize::MAX,
        ensures
            r.wf(),
            r.is_matrix(config.ssm_state_size as int, config.ssm_state_size as int),
            r.elems() == self.states()[layer as int][group as int],
    {
        let size = config.ssm_state_size;
        let data = slice_to_vec(self.states.load(layer, group).as_slice());
        let shape = vec![size, size];
        proof {
            shape::lemma_matrix_shape(shape@);
        }
        Tensor::from_vec(data, shape)
    }

    /// Replaces the matrix of a group.
    pub fn set_group_state(
        &mut self,
        layer: usize,
        group: usize,
        state: &Tensor<T>,
        config: &ModelConfig,
    )
        requires
            old(self).wf(config),
            layer < config.n_layers,
            group < config.ssm_group_count,
            state.is_matrix(config.ssm_state_size as int, config.ssm_state_size as int),
        ensures
            final(self).wf(config),
            final(self).states() == replaced(
                old(self).states(),
                layer as int,
                group as int,
                state.elems(),
            ),
            final(self).history() == old(self).history(),
    {
        self.states.store(layer, group, slice_to_vec(state.data()));
        proof {
            lemma_replaced(
                old(self).states(),
                config.n_layers as int,
                config.ssm_group_count as int,
                config.ssm_state_size * config.ssm_state_size,
                layer as int,
                group as int,
                state.elems(),
            );
        }
    }

    /// Input number `i` of the convolution of a layer, the oldest being number zero.
    pub fn past(&self, layer: usize, i: usize) -> (r: &[T])
        requires
            layer < self.history().len(),
            i < self.history()[layer as int].len(),
        ensures
            r@ == self.history()[layer as int][i as int],
    {
        self.history.load(layer, i).as_slice()
    }

    /// Appends an input of the convolution of a layer, and drops the oldest.
    pub fn remember(&mut self, layer: usize, input: &[T], config: &ModelConfig)
        requires
            old(self).wf(config),
            layer < config.n_layers,
            input@.len() == 3 * (config.ssm_group_count * config.ssm_state_size),
        ensures
            final(self).wf(config),
            final(self).states() == old(self).states(),
            final(self).history() == old(self).history().update(
                layer as int,
                shifted(old(self).history()[layer as int], input@),
            ),
    {
        let ghost rows = self.history()[layer as int];
        let mut i: usize = 0;
        while i + 1 < CONV_KERNEL - 1
            invariant
                i + 1 <= CONV_KERNEL - 1,
                layer < config.n_layers,
                old(self).wf(config),
                rows == old(self).history()[layer as int],
                self.states() == old(self).states(),
                self.history().len() == old(self).history().len(),
                forall|l: int|
                    0 <= l < self.history().len() && l != layer ==> #[trigger] self.history()[l]
                        == old(self).history()[l],
                self.history()[layer as int].len() == CONV_KERNEL - 1,
                forall|j: int|
                    0 <= j < CONV_KERNEL - 1 ==> #[trigger] self.history()[layer as int][j] == if j
                        < i {
                        rows[j + 1]
                    } else {
                        rows[j]
                    },
            decreases CONV_KERNEL - i,
        {
            let next = slice_to_vec(self.history.load(layer, i + 1).as_slice());
            self.history.store(layer, i, next);
            i += 1;
        }
        self.history.store(layer, CONV_KERNEL - 2, slice_to_vec(input));
        assert(self.history()[layer as int] =~= shifted(rows, input@));
        assert(self.history() =~= old(self).history().update(
            layer as int,
            shifted(rows, input@),
        ));
        proof {
            let width = 3 * (config.ssm_group_count * config.ssm_state_size);
            assert forall|l: int, j: int|
                0 <= l < config.n_layers && 0 <= j < CONV_KERNEL - 1 implies (
            #[trigger] self.history()[l][j]).len() == width by {
                assert(old(self).history()[l][j].len() == width);
                if j + 1 < CONV_KERNEL - 1 {
                    assert(old(self).history()[l][j + 1].len() == width);
                }
            }
        }
    }
}

} // verus!
