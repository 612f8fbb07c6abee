//! The keys and values that a decoder layer remembers.

use crate::error::{Error, Failure, Result};
use crate::scalar::extend;
use vstd::prelude::*;

verus! {

/// The keys and values of past positions, in the order `[position, head, dimension]`.
#[derive(Clone, Debug)]
pub struct KvCache<T> {
    pub key: Vec<T>,
    pub value: Vec<T>,
    pub kv_heads: usize,
    pub head_dim: usize,
    pub sequence_len: usize,
}

/// The cache as sequences.
#[verifier::ext_equal]
pub struct Remembered<T> {
    pub key: Seq<T>,
    pub value: Seq<T>,
    pub kv_heads: nat,
    pub head_dim: nat,
    pub len: nat,
}

impl<T> View for KvCache<T> {
    type V = Remembered<T>;

    open spec fn view(&self) -> Remembered<T> {
        Remembered {
            key: self.key@,
            value: self.value@,
            kv_heads: self.kv_heads as nat,
            head_dim: self.head_dim as nat,
            len: self.sequence_len as nat,
        }
    }
}

/// The number of positions kept of `len`.
pub open spec fn kept(len: nat, window: Option<nat>) -> nat {
    match window {
        Some(window) => if len > window {
            window
        } else {
            len
        },
        None => len,
    }
}

/// The last positions of `len` positions that are `width` elements wide each.
pub open spec fn latest<T>(data: Seq<T>, len: nat, width: nat, window: Option<nat>) -> Seq<T> {
    data.skip((len - kept(len, window)) * width)
}

impl<T> Remembered<T> {
    /// There is a key and a value for every position.
    pub open spec fn wf(self) -> bool {
        &&& self.key.len() == self.len * self.width()
        &&& self.value.len() == self.len * self.width()
    }

    /// The elements of a position.
    pub open spec fn width(self) -> nat {
        self.kv_heads * self.head_dim
    }

    /// The cache after positions were appended.
    pub open spec fn appended(
        self,
        key: Seq<T>,
        value: Seq<T>,
        kv_heads: nat,
        positions: nat,
        head_dim: nat,
        window: Option<nat>,
    ) -> Remembered<T> {
        let len = self.len + positions;
        let width = kv_heads * head_dim;
        Remembered {
            key: latest(self.key + key, len, width, window),
            value: latest(self.value + value, len, width, window),
            kv_heads,
            head_dim,
            len: kept(len, window),
        }
    }

    /// Why positions cannot be appended.
    pub open spec fn rejects(
        self,
        key: nat,
        value: nat,
        kv_heads: nat,
        positions: nat,
        head_dim: nat,
    ) -> Option<Failure> {
        let added = kv_heads * positions * head_dim;
        if kv_heads * positions > usize::MAX || added > usize::MAX {
            Some(Failure::InvalidShape("KV cache shape overflow"@))
        } else if key != added || value != added || kv_heads == 0 || head_dim == 0 {
            Some(Failure::InvalidShape("invalid KV cache update"@))
        } else if self.len != 0 && (self.kv_heads != kv_heads || self.head_dim != head_dim) {
            Some(Failure::InvalidShape("KV cache dimensions changed"@))
        } else {
            None
        }
    }
}

/// Appending twice within a window keeps what appending both parts at once keeps: the
/// latest positions of all that were ever appended.
pub proof fn appends_compose<T>(
    start: Seq<T>,
    first: Seq<T>,
    second: Seq<T>,
    width: nat,
    len: nat,
    once: nat,
    more: nat,
    window: Option<nat>,
)
    requires
        start.len() == len * width,
        first.len() == once * width,
        second.len() == more * width,
    ensures
        latest(
            latest(start + first, len + once, width, window) + second,
            kept(len + once, window) + more,
            width,
            window,
        ) == latest(start + (first + second), len + once + more, width, window),
        kept(kept(len + once, window) + more, window) == kept(len + once + more, window),
{
    let before = len + once;
    let middle = kept(before, window);
    let joined = start + first;
    let gone = ((before - middle) * width) as int;
    let total = middle + more;
    let left = ((total - kept(total, window)) * width) as int;
    let all = start + (first + second);
    assert(joined.len() == before * width) by (nonlinear_arith)
        requires
            joined.len() == len * width + once * width,
            before == len + once,
    ;
    assert(0 <= gone <= joined.len()) by (nonlinear_arith)
        requires
            gone == (before - middle) * width,
            middle <= before,
            joined.len() == before * width,
    ;
    let rest = joined.skip(gone);
    assert(rest + second =~= all.skip(gone));
    assert(kept(total, window) == kept(before + more, window));
    assert(gone + left == (before + more - kept(before + more, window)) * width)
        by (nonlinear_arith)
        requires
            gone == (before - middle) * width,
            left == (total - kept(total, window)) * width,
            total == middle + more,
            kept(total, window) == kept(before + more, window),
    ;
    assert(all.len() == (before + more) * width) by (nonlinear_arith)
        requires
            all.len() == before * width + more * width,
    ;
    assert(0 <= left && gone + left <= all.len()) by (nonlinear_arith)
        requires
            left == (total - kept(total, window)) * width,
            kept(total, window) <= total,
            gone + left == (before + more - kept(before + more, window)) * width,
            all.len() == (before + more) * width,
    ;
    assert(all.skip(gone).skip(left) =~= all.skip(gone + left));
}

/// The elements from an offset on.
fn from_offset<T: Copy>(values: &Vec<T>, offset: usize) -> (r: Vec<T>)
    requires
        offset <= values.len(),
    ensures
        r@ == values@.skip(offset as int),
{
    let mut r: Vec<T> = Vec::with_capacity(values.len() - offset);
    let mut i: usize = offset;
    while i < values.len()
        invariant
            offset <= i <= values.len(),
            r@ == values@.subrange(offset as int, i as int),
        decreases values.len() - i,
    {
        r.push(values[i]);
        assert(values@.subrange(offset as int, i + 1) =~= values@.subrange(
            offset as int,
            i as int,
        ).push(values@[i as int]));
        i = i + 1;
    }
    assert(values@.subrange(offset as int, i as int) =~= values@.skip(offset as int));
    r
}

impl<T: Copy> Default for KvCache<T> {
    /// A cache without positions.
    fn default() -> (r: KvCache<T>)
        ensures
            r@ == (Remembered::<T> {
                key: seq![],
                value: seq![],
                kv_heads: 0,
                head_dim: 0,
                len: 0,
            }),
            r@.wf(),
    {
        KvCache {
            key: Vec::new(),
            value: Vec::new(),
            kv_heads: 0,
            head_dim: 0,
            sequence_len: 0,
        }
    }
}

/// The window as a number.
pub open spec fn bounded(window: Option<usize>) -> Option<nat> {
    match window {
        Some(window) => Some(window as nat),
        None => None,
    }
}

impl<T: Copy> KvCache<T> {
    /// Appends positions; where there is a window, only the latest positions stay.
    pub fn append(
        &mut self,
        key: &Vec<T>,
        value: &Vec<T>,
        kv_heads: usize,
        positions: usize,
        head_dim: usize,
        window: Option<usize>,
    ) -> (r: Result<()>)
        requires
            old(self)@.wf(),
        ensures
            final(self)@.wf(),
            match old(self)@.rejects(
                key@.len(),
                value@.len(),
                kv_heads as nat,
                positions as nat,
                head_dim as nat,
            ) {
                Some(failure) => {
                    &&& r matches Err(error) && error@ == failure
                    &&& *final(self) == *old(self)
                },
                None => {
                    &&& r is Ok
                    &&& final(self)@ == old(self)@.appended(
                        key@,
                        value@,
                        kv_heads as nat,
                        positions as nat,
                        head_dim as nat,
                        bounded(window),
                    )
                },
            },
    {
        let planes: usize = match kv_heads.checked_mul(positions) {
            Some(planes) => planes,
            None => {
                return Err(Error::shape("KV cache shape overflow"));
            },
        };
        let added: usize = match planes.checked_mul(head_dim) {
            Some(added) => added,
            None => {
                return Err(Error::shape("KV cache shape overflow"));
            },
        };
        if key.len() != added || value.len() != added || kv_heads == 0 || head_dim == 0 {
            return Err(Error::shape("invalid KV cache update"));
        }
        if self.sequence_len != 0 && (self.kv_heads != kv_heads || self.head_dim != head_dim) {
            return Err(Error::shape("KV cache dimensions changed"));
        }
        let ghost past = self.sequence_len as int;
        let ghost width = (kv_heads * head_dim) as int;
        proof {
            if past == 0 {
                let before = (self.kv_heads * self.head_dim) as int;
                assert(past * before == 0 && past * width == 0);
            }
            assert(self.key@.len() == past * width);
            assert(self.value@.len() == past * width);
            assert(key@.len() == positions * width) by (nonlinear_arith)
                requires
                    key@.len() == kv_heads * positions * head_dim,
                    width == kv_heads * head_dim,
            ;
            assert(past * width + positions * width == (past + positions) * width)
                by (nonlinear_arith);
            assert(width >= 1) by (nonlinear_arith)
                requires
                    width == kv_heads * head_dim,
                    kv_heads > 0,
                    head_dim > 0,
            ;
        }
        self.kv_heads = kv_heads;
        self.head_dim = head_dim;
        extend(&mut self.key, key);
        extend(&mut self.value, value);
        let room: usize = self.key.len();
        proof {
            assert(past + positions <= room) by (nonlinear_arith)
                requires
                    room == (past + positions) * width,
                    width >= 1,
                    past + positions >= 0,
            ;
        }
        self.sequence_len = self.sequence_len + positions;
        let ghost len = self.sequence_len as nat;
        match window {
            Some(window) => {
                if self.sequence_len > window {
                    let gone: usize = self.sequence_len - window;
                    proof {
                        assert(gone * kv_heads * head_dim == gone * width && gone * kv_heads <= gone
                            * kv_heads * head_dim && gone * width <= len * width)
                            by (nonlinear_arith)
                            requires
                                width == kv_heads * head_dim,
                                kv_heads > 0,
                                head_dim > 0,
                                gone <= len,
                        ;
                        assert((len - gone) * width == len * width - gone * width)
                            by (nonlinear_arith);
                    }
                    let discard: usize = gone * kv_heads * head_dim;
                    self.key = from_offset(&self.key, discard);
                    self.value = from_offset(&self.value, discard);
                    self.sequence_len = window;
                }
            },
            None => {},
        }
        proof {
            let all = old(self)@.appended(
                key@,
                value@,
                kv_heads as nat,
                positions as nat,
                head_dim as nat,
                bounded(window),
            );
            assert((len - len) * width == 0) by (nonlinear_arith);
            assert(self@.key =~= all.key);
            assert(self@.value =~= all.value);
        }
        Ok(())
    }

    /// The number of positions.
    #[must_use]
    pub fn sequence_len(&self) -> (r: usize)
        ensures
            r == self@.len,
    {
        self.sequence_len
    }

    /// The keys.
    #[must_use]
    pub fn key(&self) -> (r: &Vec<T>)
        ensures
            r@ == self@.key,
    {
        &self.key
    }

    /// The values.
    #[must_use]
    pub fn value(&self) -> (r: &Vec<T>)
        ensures
            r@ == self@.value,
    {
        &self.value
    }
}

} // verus!
