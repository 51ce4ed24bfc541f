//! The linear transform of the cipher: a key vector is multiplied into a
//! message vector element by element, and the products are summed window by
//! window.

use vstd::prelude::*;
use vstd::arithmetic::div_mod::lemma_fundamental_div_mod;
use vstd::arithmetic::div_mod::lemma_fundamental_div_mod_converse;
use crate::error::{viewed, CipherError};

verus! {

/// The sum of the products `key[i] * msg[i]` for `i` from `start` up to, not
/// including, `end`.
pub open spec fn products_sum(key: Seq<usize>, msg: Seq<usize>, start: int, end: int) -> int
    decreases end - start,
{
    if end <= start {
        0
    } else {
        products_sum(key, msg, start, end - 1) + key[end - 1] * msg[end - 1]
    }
}

/// The dot product of window `w` of the key with window `w` of the message,
/// the windows being the consecutive runs of `cols` elements.
pub open spec fn window_dot(key: Seq<usize>, msg: Seq<usize>, cols: nat, w: int) -> int {
    products_sum(key, msg, w * cols, w * cols + cols)
}

/// Whether key and message can be multiplied window by window: the windows
/// have a positive width, both vectors have one length, and the windows fill
/// the message exactly.
pub open spec fn windows_fit(key: Seq<usize>, msg: Seq<usize>, cols: nat) -> bool {
    cols > 0 && key.len() == msg.len() && msg.len() % cols == 0
}

/// What multiplying `key` into `msg` in windows of `cols` elements comes to:
/// one dot product for each window, in order.
///
/// Vectors that do not fit the windows are refused, and so is a product in
/// which the sum of some window exceeds the machine word.
pub open spec fn multiply_outcome(key: Seq<usize>, msg: Seq<usize>, cols: nat) -> Result<
    Seq<usize>,
    CipherError,
> {
    if !windows_fit(key, msg, cols) {
        Err(CipherError::DimensionError)
    } else if exists|w: int|
        0 <= w < msg.len() / cols && #[trigger] window_dot(key, msg, cols, w) > usize::MAX {
        Err(CipherError::OverflowError)
    } else {
        Ok(Seq::new(msg.len() / cols, |w: int| window_dot(key, msg, cols, w) as usize))
    }
}

/// A sum of products only grows when more products are added.
proof fn lemma_products_sum_grows(key: Seq<usize>, msg: Seq<usize>, start: int, mid: int, end: int)
    requires
        start <= mid <= end,
    ensures
        0 <= products_sum(key, msg, start, mid) <= products_sum(key, msg, start, end),
    decreases end - start,
{
    if mid < end {
        lemma_products_sum_grows(key, msg, start, mid, end - 1);
    } else if start < mid {
        lemma_products_sum_grows(key, msg, start, mid - 1, mid - 1);
    }
}

/// Products of zero add nothing to a sum of products.
pub proof fn lemma_products_sum_without_zeros(
    key: Seq<usize>,
    msg: Seq<usize>,
    start: int,
    mid: int,
    end: int,
)
    requires
        start <= mid <= end,
        forall|i: int| mid <= i < end ==> #[trigger] msg[i] == 0,
    ensures
        products_sum(key, msg, start, end) == products_sum(key, msg, start, mid),
    decreases end - mid,
{
    if mid < end {
        lemma_products_sum_without_zeros(key, msg, start, mid, end - 1);
        assert(key[end - 1] * msg[end - 1] == 0) by (nonlinear_arith)
            requires
                msg[end - 1] == 0,
        ;
    }
}

/// A window that has been begun inside a message made of whole windows ends
/// inside it.
proof fn lemma_window_inside(len: int, cols: int, w: int, taken: int)
    requires
        cols > 0,
        len % cols == 0,
        0 <= w,
        0 <= taken < cols,
        w * cols + taken < len,
    ensures
        w * cols + cols <= len,
        w < len / cols,
{
    lemma_fundamental_div_mod(len, cols);
    let q = len / cols;
    assert(w < q) by (nonlinear_arith)
        requires
            w * cols + taken < q * cols,
            0 <= taken,
            cols > 0,
    ;
    assert(w * cols + cols <= q * cols) by (nonlinear_arith)
        requires
            w < q,
            cols > 0,
    ;
}

/// Multiplies the key vector into the message vector: each consecutive
/// window of `no_of_cols` elements of the message is multiplied element by
/// element with the same window of the key, and the sum of the products is
/// one element of the result.
///
/// This is one pass over the message that accumulates products and emits the
/// sum whenever a window is complete. See [`multiply_outcome`] for the
/// inputs that are refused.
pub fn matrix_mul(
    encoding_mat: Vec<usize>,
    msg_mat: Vec<usize>,
    no_of_cols: usize,
) -> (res: Result<Vec<usize>, CipherError>)
    ensures
        viewed(res) == multiply_outcome(encoding_mat@, msg_mat@, no_of_cols as nat),
{
    let len = msg_mat.len();
    if no_of_cols == 0 || encoding_mat.len() != len || len % no_of_cols != 0 {
        return Err(CipherError::DimensionError);
    }
    let ghost key = encoding_mat@;
    let ghost msg = msg_mat@;
    let ghost cols = no_of_cols as nat;
    let mut encoded_mat: Vec<usize> = Vec::new();
    let mut sum: usize = 0;
    let mut taken: usize = 0;
    let mut i: usize = 0;
    assert(encoded_mat.len() * cols == 0) by (nonlinear_arith)
        requires
            encoded_mat.len() == 0,
    ;
    while i < len
        invariant
            key == encoding_mat@,
            msg == msg_mat@,
            cols == no_of_cols as nat,
            cols > 0,
            len == msg.len() == key.len(),
            msg.len() % cols == 0,
            0 <= i <= len,
            0 <= taken < cols,
            i == encoded_mat.len() * cols + taken,
            sum == products_sum(key, msg, i - taken, i as int),
            forall|w: int|
                0 <= w < encoded_mat.len() ==> encoded_mat[w] == #[trigger] window_dot(
                    key,
                    msg,
                    cols,
                    w,
                ),
        decreases len - i,
    {
        let ghost w = encoded_mat.len() as int;
        proof {
            lemma_products_sum_grows(key, msg, w * cols, i + 1, w * cols + cols);
            assert(w * cols + cols <= len && w < msg.len() / cols) by {
                lemma_window_inside(len as int, cols as int, w, taken as int);
            }
        }
        let product = match encoding_mat[i].checked_mul(msg_mat[i]) {
            Some(product) => product,
            None => {
                proof {
                    assert(window_dot(key, msg, cols, w) > usize::MAX);
                }
                return Err(CipherError::OverflowError);
            },
        };
        sum = match sum.checked_add(product) {
            Some(sum) => sum,
            None => {
                return Err(CipherError::OverflowError);
            },
        };
        taken += 1;
        i += 1;
        if taken == no_of_cols {
            encoded_mat.push(sum);
            sum = 0;
            taken = 0;
            proof {
                assert(i == (w + 1) * cols) by (nonlinear_arith)
                    requires
                        i == w * cols + cols,
                ;
            }
        }
    }
    proof {
        lemma_fundamental_div_mod_converse(
            len as int,
            cols as int,
            encoded_mat.len() as int,
            taken as int,
        );
        assert(encoded_mat@ =~= Seq::new(
            msg.len() / cols,
            |w: int| window_dot(key, msg, cols, w) as usize,
        ));
    }
    Ok(encoded_mat)
}

} // verus!
