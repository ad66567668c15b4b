//! All configurations that can be built.
use vstd::prelude::*;

use crate::text::{same, texts};
use crate::tooling::search::{
    backoff_values, backoffs, block_values, blocks, is_valid, pool_values, pooled_presets, pools,
    preset_values, presets, LabelParts,
};

verus! {

/// How many configurations can be built.
pub const CATALOGUE_LEN: usize = 464;

/// The configurations that can be built, by number: first those with a pool.
pub open spec fn catalogue(i: int) -> LabelParts {
    if i < 448 {
        LabelParts {
            preset: pooled_presets()[i / 112],
            pool: pools()[(i / 16) % 7],
            block: blocks()[(i / 2) % 8],
            backoff: backoffs()[i % 2],
        }
    } else {
        LabelParts {
            preset: "no_pool"@,
            pool: 0,
            block: blocks()[((i - 448) / 2) % 8],
            backoff: backoffs()[i % 2],
        }
    }
}

proof fn lemma_names()
    ensures
        forall|i: int, j: int|
            0 <= i < 5 && 0 <= j < 5 && i != j ==> #[trigger] presets()[i] != #[trigger] presets()[j],
        forall|i: int| 0 <= i < 4 ==> #[trigger] pooled_presets()[i] != "no_pool"@,
        forall|i: int, j: int|
            0 <= i < 4 && 0 <= j < 4 && i != j ==> #[trigger] pooled_presets()[i]
                != #[trigger] pooled_presets()[j],
        backoffs()[0] != backoffs()[1],
        presets()[3] == "no_pool"@,
{
    reveal_strlit("aggressive_prepare");
    reveal_strlit("balanced");
    reveal_strlit("pool_conservative");
    reveal_strlit("no_pool");
    reveal_strlit("consumer_pool_only");
    reveal_strlit("crossbeam");
    reveal_strlit("yield");
    assert("aggressive_prepare"@[0] != "consumer_pool_only"@[0]);
    assert("aggressive_prepare"@.len() == 18);
    assert("balanced"@.len() == 8);
    assert("pool_conservative"@.len() == 17);
    assert("no_pool"@.len() == 7);
    assert("consumer_pool_only"@.len() == 18);
    assert("crossbeam"@.len() == 9);
    assert("yield"@.len() == 5);
}

/// Every number of the catalogue stands for a configuration that can be built.
pub proof fn law_catalogue_is_valid(i: int)
    requires
        0 <= i < CATALOGUE_LEN,
    ensures
        is_valid(catalogue(i)),
{
    lemma_names();
    let label = catalogue(i);
    if i < 448 {
        let at = i / 112;
        let place = if at == 3 {
            4
        } else {
            at
        };
        assert(presets()[place] == label.preset);
        assert(pools()[(i / 16) % 7] == label.pool);
        assert(blocks()[(i / 2) % 8] == label.block);
    } else {
        assert(presets()[3] == label.preset);
        assert(blocks()[((i - 448) / 2) % 8] == label.block);
    }
    assert(backoffs()[i % 2] == label.backoff);
}

/// Different numbers stand for different configurations.
pub proof fn law_catalogue_is_distinct(i: int, j: int)
    requires
        0 <= i < CATALOGUE_LEN,
        0 <= j < CATALOGUE_LEN,
        catalogue(i) == catalogue(j),
    ensures
        i == j,
{
    lemma_names();
    assert(forall|a: int, b: int|
        0 <= a < 8 && 0 <= b < 8 && #[trigger] blocks()[a] == #[trigger] blocks()[b] ==> a == b);
    assert(forall|a: int, b: int|
        0 <= a < 7 && 0 <= b < 7 && #[trigger] pools()[a] == #[trigger] pools()[b] ==> a == b);
    assert(forall|a: int| 0 <= a < 7 ==> #[trigger] pools()[a] != 0);
    assert(i % 2 == j % 2);
    if i < 448 {
        assert(pools()[(i / 16) % 7] != 0);
        assert(j < 448) by {
            if j >= 448 {
                assert(catalogue(j).pool == 0);
            }
        }
        assert(i / 112 == j / 112);
        assert((i / 16) % 7 == (j / 16) % 7);
        assert((i / 2) % 8 == (j / 2) % 8);
    } else {
        assert(j >= 448) by {
            if j < 448 {
                assert(pools()[(j / 16) % 7] != 0);
            }
        }
        assert(((i - 448) / 2) % 8 == ((j - 448) / 2) % 8);
    }
}

/// Every configuration that can be built is in the catalogue.
#[verifier::spinoff_prover]
pub proof fn law_catalogue_is_complete(label: LabelParts)
    requires
        is_valid(label),
    ensures
        exists|i: int| 0 <= i < CATALOGUE_LEN && #[trigger] catalogue(i) == label,
{
    lemma_names();
    let preset = choose|k: int| 0 <= k < presets().len() && presets()[k] == label.preset;
    let block = choose|k: int| 0 <= k < blocks().len() && blocks()[k] == label.block;
    let backoff = choose|k: int| 0 <= k < backoffs().len() && backoffs()[k] == label.backoff;
    if label.preset == "no_pool"@ {
        let i = 448 + 2 * block + backoff;
        lemma_plain_place(block, backoff);
        assert(catalogue(i) == label);
    } else {
        let pool = choose|k: int| 0 <= k < pools().len() && pools()[k] == label.pool;
        let at = if preset == 4 {
            3
        } else {
            preset
        };
        assert(preset != 3);
        assert(pooled_presets()[at] == label.preset);
        let i = 112 * at + 16 * pool + 2 * block + backoff;
        lemma_pooled_place(at, pool, block, backoff);
        assert(catalogue(i) == label);
    }
}

/// The number of a configuration with a pool is made of its four places.
proof fn lemma_pooled_place(at: int, pool: int, block: int, backoff: int)
    requires
        0 <= at < 4,
        0 <= pool < 7,
        0 <= block < 8,
        0 <= backoff < 2,
    ensures
        ({
            let i = 112 * at + 16 * pool + 2 * block + backoff;
            &&& 0 <= i < 448
            &&& i / 112 == at
            &&& (i / 16) % 7 == pool
            &&& (i / 2) % 8 == block
            &&& i % 2 == backoff
        }),
{
    let halves = 56 * at + 8 * pool + block;
    let rows = 7 * at + pool;
    let i = 2 * halves + backoff;
    assert(i / 2 == halves);
    assert(halves == 8 * rows + block);
    assert(halves % 8 == block);
    assert(i == 16 * rows + (2 * block + backoff));
    assert(i / 16 == rows);
    assert(rows % 7 == pool);
    assert(i == 112 * at + (16 * pool + 2 * block + backoff));
    assert(i / 112 == at);
}

/// The number of a configuration without a pool is made of its two places.
proof fn lemma_plain_place(block: int, backoff: int)
    requires
        0 <= block < 8,
        0 <= backoff < 2,
    ensures
        ({
            let i = 448 + 2 * block + backoff;
            &&& 448 <= i < 464
            &&& ((i - 448) / 2) % 8 == block
            &&& i % 2 == backoff
        }),
{
}

/// Counts the configurations that can be built.
pub fn total_valid_ubq_label_count() -> (total: usize)
    ensures
        total == CATALOGUE_LEN,
{
    let presets = preset_values();
    let blocks = block_values();
    let backoffs = backoff_values();
    let pools = pool_values();
    let ghost names = texts(presets@);
    proof {
        lemma_names();
        assert(names.len() == 5);
        assert(texts(backoffs@).len() == 2);
    }
    let mut total: usize = 0;
    let mut i: usize = 0;
    while i < presets.len()
        invariant
            names == texts(presets@),
            names == self::presets(),
            forall|a: int, b: int|
                0 <= a < 5 && 0 <= b < 5 && a != b ==> #[trigger] names[a] != #[trigger] names[b],
            names[3] == "no_pool"@,
            presets@.len() == 5,
            blocks@.len() == 8,
            backoffs@.len() == 2,
            pools@.len() == 7,
            i <= 5,
            total == (if i <= 3 {
                112 * i
            } else {
                112 * i - 96
            }),
        decreases 5 - i,
    {
        assert(names[i as int] == presets@[i as int]@);
        let pooled = !same(presets[i].as_str(), "no_pool");
        assert(pooled == (i != 3));
        let ghost start = total;
        let mut j: usize = 0;
        while j < blocks.len()
            invariant
                blocks@.len() == 8,
                backoffs@.len() == 2,
                pools@.len() == 7,
                start <= 448,
                j <= 8,
                total == (if pooled {
                    start + 14 * j
                } else {
                    start + 2 * j
                }),
            decreases 8 - j,
        {
            let ghost row = total;
            let mut k: usize = 0;
            while k < backoffs.len()
                invariant
                    backoffs@.len() == 2,
                    pools@.len() == 7,
                    row <= 600,
                    k <= 2,
                    total == (if pooled {
                        row + 7 * k
                    } else {
                        row + k
                    }),
                decreases 2 - k,
            {
                if pooled {
                    let ghost cell = total;
                    let mut l: usize = 0;
                    while l < pools.len()
                        invariant
                            pools@.len() == 7,
                            cell <= 700,
                            l <= 7,
                            total == cell + l,
                        decreases 7 - l,
                    {
                        total = total + 1;
                        l = l + 1;
                    }
                } else {
                    total = total + 1;
                }
                k = k + 1;
            }
            j = j + 1;
        }
        i = i + 1;
    }
    total
}

} // verus!
