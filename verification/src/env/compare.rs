//! Comparing keys and values in the order of a sub-database.
use super::data::{dbi_usable, index_of, visible};
use super::{MDBX_env, MDBX_txn};
use crate::error::MdbxError;
use crate::order::compare_bytes;
use vstd::prelude::*;

verus! {

/// Compares two keys in the order of sub-database `dbi` and returns -1, 0
/// or 1.
pub fn mdbx_cmp(env: &MDBX_env, txn: &MDBX_txn, dbi: u32, a: &[u8], b: &[u8]) -> (r: Result<
    i32,
    MdbxError,
>)
    requires
        env.wf(),
    ensures
        match env@.compare_keys(txn@, dbi, a@, b@) {
            Ok(s) => r is Ok && r->Ok_0 == s,
            Err(e) => r == Err::<i32, MdbxError>(e),
        },
{
    let (dbs, _) = match visible(env, txn) {
        Some(x) => x,
        None => {
            return Err(MdbxError::BadTxn);
        },
    };
    if !dbi_usable(env, dbs, dbi) {
        return Err(MdbxError::BadDbi);
    }
    let i: usize = index_of(dbi);
    Ok(compare_bytes(dbs[i].flags.get_key_order(), a, b))
}

/// Compares two values in the order of sub-database `dbi` and returns -1,
/// 0 or 1.
pub fn mdbx_dcmp(env: &MDBX_env, txn: &MDBX_txn, dbi: u32, a: &[u8], b: &[u8]) -> (r: Result<
    i32,
    MdbxError,
>)
    requires
        env.wf(),
    ensures
        match env@.compare_vals(txn@, dbi, a@, b@) {
            Ok(s) => r is Ok && r->Ok_0 == s,
            Err(e) => r == Err::<i32, MdbxError>(e),
        },
{
    let (dbs, _) = match visible(env, txn) {
        Some(x) => x,
        None => {
            return Err(MdbxError::BadTxn);
        },
    };
    if !dbi_usable(env, dbs, dbi) {
        return Err(MdbxError::BadDbi);
    }
    let i: usize = index_of(dbi);
    Ok(compare_bytes(dbs[i].flags.get_dup_order(), a, b))
}

} // verus!
