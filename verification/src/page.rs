//! The paging layer: every block below is a page of one size, and a logical
//! value is a chain of chunks over data pages.
use crate::bytes::{copy_range, put_range};
use crate::error::{fails_with, KvError};
use crate::kv::IntKv;
use crate::page_codec::Chunk;
use crate::page_format::{lemma_parse_meta_page, parse_meta_page};
use crate::page_image::{image_ok, lemma_image, meta_stored, stored_image};
use crate::page_model::{
    chunk_take, chunks_at, clean, column, data_pages_stored, free_at, key_of, keys_ok,
    lemma_base_meta, lemma_base_page, lemma_chain_at, lemma_chain_head, lemma_clean_is_stored,
    lemma_index_fits, lemma_meta_lacks, lemma_meta_lacks_more, lemma_meta_rewritten, lemma_no_chunk,
    lemma_other_pages, lemma_others_kept_blocks, lemma_others_kept_lower, lemma_others_kept_self,
    lemma_others_kept_step, lemma_rekeyed, lemma_same_pages, lemma_same_pages_keys_ok,
    lemma_same_step, lemma_step_behead, lemma_step_extend, lemma_step_rewrite, lemma_step_start,
    lemma_step_unlink, lemma_stored_after_lower, lemma_tidy_blocks, lemma_tidy_emptied,
    lemma_tidy_empty, lemma_tidy_meta, lemma_tidy_same, lemma_value_push, lemma_whole_chain,
    lemma_work_left_bound, lemma_work_left_new, lemma_work_left_next, lower_changed, meta_lacks,
    meta_pages_stored, meta_rewritten, model_blocks, next_in, no_free, no_room, others_kept,
    page_of, rekeyed, same_index, same_pages, step_done, value_along, value_of, weight, work_left,
};
use crate::page_store::{copy_u64s, meta_pages_fit, PageIntKv};
use vstd::prelude::*;

verus! {

impl<K: IntKv> PageIntKv<K> {
    /// Removes the value of `key`: takes its chunk out of each page of its
    /// chain, first page first. Where a page cannot be read, what was not yet
    /// reached stays as the value.
    fn remove_value(&mut self, key: u64) -> (r: Result<(), KvError>)
        requires
            old(self).valid(),
            old(self).model().index.contains_key(key),
        ensures
            final(self).valid(),
            final(self).model().page_size == old(self).model().page_size,
            old(self).kv.reliable() ==> final(self).kv.reliable(),
            old(self).kv.roomy() ==> final(self).kv.roomy(),
            others_kept(old(self).model(), final(self).model(), key),
            r is Ok ==> !final(self).model().index.contains_key(key),
            r is Ok ==> !clean(final(self).model()),
            old(self).kv.reliable() ==> r is Ok,
            !fails_with(r, KvError::NotFound),
    {
        let ghost m_old = self.model();
        proof {
            lemma_others_kept_self(m_old, key);
            lemma_chain_head(m_old, key);
        }
        loop
            invariant_except_break
                self.model().index.contains_key(key),
                self.model().chains.contains_key(key),
            invariant
                self.valid(),
                m_old == old(self).model(),
                self.model().page_size == old(self).model().page_size,
                old(self).kv.reliable() ==> self.kv.reliable(),
                old(self).kv.roomy() ==> self.kv.roomy(),
                others_kept(m_old, self.model(), key),
            ensures
                self.valid(),
                self.model().page_size == old(self).model().page_size,
                old(self).kv.reliable() ==> self.kv.reliable(),
                old(self).kv.roomy() ==> self.kv.roomy(),
                others_kept(m_old, self.model(), key),
                !self.model().index.contains_key(key),
                !clean(self.model()),
            decreases self.model().chains[key].len(),
        {
            let ghost m0 = self.model();
            let ghost chain = self.model().chains[key];
            let head = match self.head_of(key) {
                Some(h) => h,
                None => {
                    return Err(KvError::LocalError);
                },
            };
            proof {
                lemma_chain_head(m0, key);
                lemma_chain_at(m0, key, 0);
            }
            match self.load_page(head) {
                Ok(()) => {},
                Err(e) => {
                    proof {
                        lemma_same_pages_keys_ok(m0, self.model());
                        lemma_others_kept_step(m_old, m0, self.model(), key);
                    }
                    return Err(e);
                },
            }
            let ghost m1 = self.model();
            proof {
                lemma_same_pages(m0, m1);
                assert(column(m1, key) == column(m0, key));
            }
            let old_chunk = self.set_chunk(head, key, None);
            let ghost m2 = self.model();
            let nx = match old_chunk {
                Some(c) => c.next_page_index,
                None => 0,
            };
            let last = nx == 0;
            if last {
                self.set_head(key, None, Ghost(chain));
            } else {
                self.set_head(key, Some(nx), Ghost(chain.drop_first()));
            }
            proof {
                let m3 = self.model();
                assert(rekeyed(m2, m3, key));
                lemma_step_behead(m0, m1, m2, m3, key);
                lemma_others_kept_step(m_old, m0, m3, key);
                assert(m2.dirty.contains_key(head));
                assert(m3.dirty.contains_key(head));
            }
            if last {
                break ;
            }
        }
        Ok(())
    }

    /// Gives `key`, which has no value, the empty value: an empty chunk in
    /// the page where a value of `size` bytes starts.
    fn start_value(&mut self, key: u64, size: u64) -> (r: Result<(), KvError>)
        requires
            old(self).valid(),
            key <= usize::MAX,
            !old(self).model().index.contains_key(key),
            old(self).model().page_size >= 32,
        ensures
            final(self).valid(),
            final(self).model().page_size == old(self).model().page_size,
            old(self).kv.reliable() ==> final(self).kv.reliable(),
            old(self).kv.roomy() ==> final(self).kv.roomy(),
            others_kept(old(self).model(), final(self).model(), key),
            r is Ok ==> final(self).model().index.contains_key(key) && value_of(
                final(self).model(),
                key,
            ) == Seq::<u8>::empty(),
            r is Err ==> !final(self).model().index.contains_key(key),
            r is Ok ==> !clean(final(self).model()),
            old(self).kv.reliable() ==> r is Ok || fails_with(r, KvError::WriteZero),
            old(self).kv.reliable() && r is Err ==> no_free(final(self).model()),
    {
        let ghost m0 = self.model();
        proof {
            lemma_others_kept_self(m0, key);
        }
        let found = match self.find_first_page_for_size(size) {
            Ok(found) => found,
            Err(e) => {
                proof {
                    lemma_same_pages_keys_ok(m0, self.model());
                }
                return Err(e);
            },
        };
        let ghost m1 = self.model();
        proof {
            lemma_same_pages_keys_ok(m0, m1);
        }
        let head: u64 = match found {
            Some(p) => {
                proof {
                    lemma_no_chunk(m1, key, p);
                }
                self.set_chunk(p, key, Some(Chunk { next_page_index: 0, data: Vec::new() }));
                p
            },
            None => {
                let reserved: Vec<u64> = Vec::new();
                let f = match self.find_free_index(&reserved) {
                    Ok(f) => f,
                    Err(e) => {
                        return Err(e);
                    },
                };
                self.add_page(f, key, Chunk { next_page_index: 0, data: Vec::new() });
                f
            },
        };
        let ghost m2 = self.model();
        proof {
            self.lemma_wf();
            assert(m2.sizes.contains_key(head));
            lemma_base_page(m2, head);
        }
        let ghost single = Seq::<u64>::empty().push(head);
        assert(single =~= seq![head]);
        self.set_head(key, Some(head), Ghost(single));
        proof {
            let m3 = self.model();
            assert(rekeyed(m2, m3, key));
            lemma_step_start(m0, m1, m2, m3, key, head);
        }
        Ok(())
    }

    /// Puts `part` into the chunk of `key` in the page at position `j` of its
    /// chain; the chunk keeps its link.
    fn rewrite_chunk(&mut self, cur: u64, key: u64, nx: u64, part: Vec<u8>, Ghost(j): Ghost<int>)
        requires
            old(self).valid(),
            old(self).model().index.contains_key(key),
            0 <= j < old(self).model().chains[key].len(),
            old(self).model().chains[key][j] == cur,
            old(self).model().dirty.contains_key(cur),
            nx == column(old(self).model(), key)[cur].0,
            old(self).model().sizes[cur] - weight(old(self).model(), cur, key) + 24
                + part@.len() <= old(self).model().page_size,
        ensures
            final(self).valid(),
            same_index(old(self).model(), final(self).model()),
            final(self).model().lower == old(self).model().lower,
            old(self).kv.reliable() ==> final(self).kv.reliable(),
            old(self).kv.roomy() ==> final(self).kv.roomy(),
            others_kept(old(self).model(), final(self).model(), key),
            final(self).model().dirty.contains_key(cur),
            column(final(self).model(), key) == column(old(self).model(), key).insert(
                cur,
                (nx, part@),
            ),
            value_along(column(final(self).model(), key), old(self).model().chains[key].take(j + 1))
                == value_along(column(old(self).model(), key), old(self).model().chains[key].take(j))
                + part@,
    {
        let ghost m0 = self.model();
        self.set_chunk(cur, key, Some(Chunk { next_page_index: nx, data: part }));
        proof {
            let m2 = self.model();
            assert(same_pages(m0, m0));
            lemma_step_rewrite(m0, m0, m2, key, cur, j, (nx, part@));
        }
    }

    /// Links the last page `cur` of the chain of `key` to a new page that
    /// holds an empty chunk, and puts `part` into the chunk of `cur`.
    fn extend_chain(&mut self, cur: u64, key: u64, part: Vec<u8>) -> (r: Result<u64, KvError>)
        requires
            old(self).valid(),
            old(self).model().page_size >= 32,
            old(self).model().index.contains_key(key),
            old(self).model().chains[key].last() == cur,
            old(self).model().dirty.contains_key(cur),
            old(self).model().sizes[cur] - weight(old(self).model(), cur, key) + 24
                + part@.len() <= old(self).model().page_size,
        ensures
            final(self).valid(),
            final(self).model().page_size == old(self).model().page_size,
            old(self).kv.reliable() ==> final(self).kv.reliable(),
            old(self).kv.roomy() ==> final(self).kv.roomy(),
            others_kept(old(self).model(), final(self).model(), key),
            final(self).model().index == old(self).model().index,
            r is Err ==> final(self).model() == old(self).model(),
            old(self).kv.reliable() ==> r is Ok || fails_with(r, KvError::WriteZero),
            old(self).kv.reliable() && r is Err ==> no_free(final(self).model()),
            r matches Ok(f) ==> {
                let m = final(self).model();
                &&& final(self).model().chains == old(self).model().chains.insert(
                    key,
                    old(self).model().chains[key].push(f),
                )
                &&& m.dirty.contains_key(cur)
                &&& m.sizes.contains_key(f)
                &&& m.sizes[f] == 32
                &&& column(m, key)[f] == (0u64, Seq::<u8>::empty())
                &&& value_along(column(m, key), old(self).model().chains[key]) == value_along(
                    column(old(self).model(), key),
                    old(self).model().chains[key].drop_last(),
                ) + part@
            },
    {
        let ghost m0 = self.model();
        let ghost chain = self.model().chains[key];
        proof {
            lemma_others_kept_self(m0, key);
            self.lemma_wf();
            lemma_base_page(m0, cur);
        }
        let reserved: Vec<u64> = Vec::new();
        let f = match self.find_free_index(&reserved) {
            Ok(f) => f,
            Err(e) => {
                return Err(e);
            },
        };
        self.add_page(f, key, Chunk { next_page_index: 0, data: Vec::new() });
        let ghost m2 = self.model();
        proof {
            lemma_other_pages(m0, m2, f, cur);
        }
        self.set_chunk(cur, key, Some(Chunk { next_page_index: f, data: part }));
        let ghost m3 = self.model();
        self.set_chain(key, Ghost(chain.push(f)));
        proof {
            let m4 = self.model();
            assert(rekeyed(m3, m4, key));
            assert(same_pages(m0, m0));
            lemma_step_extend(m0, m0, m2, m3, m4, key, cur, f, part@);
            lemma_rekeyed(m3, m4, key);
        }
        Ok(f)
    }

    /// One step of writing where the chain ends at `cur` and more bytes are
    /// left than `cur` takes: the first `n` bytes from `offset` go to `cur`,
    /// which is linked to a new page.
    fn step_to_new_page(
        &mut self,
        cur: u64,
        key: u64,
        data: &[u8],
        offset: usize,
        n: usize,
        Ghost(j): Ghost<int>,
    ) -> (r: Result<u64, KvError>)
        requires
            old(self).valid(),
            old(self).model().page_size >= 33,
            old(self).model().index.contains_key(key),
            j == old(self).model().chains[key].len() - 1,
            0 <= j,
            old(self).model().chains[key][j] == cur,
            offset + n < data@.len(),
            old(self).model().dirty.contains_key(cur),
            old(self).model().sizes[cur] - weight(old(self).model(), cur, key) + 24 + n
                <= old(self).model().page_size,
            n >= 1 || !(old(self).model().sizes[cur] == 32 && column(old(self).model(), key)[cur].1.len()
                == 0),
            value_along(column(old(self).model(), key), old(self).model().chains[key].take(j))
                == data@.take(offset as int),
        ensures
            final(self).valid(),
            final(self).model().page_size == old(self).model().page_size,
            old(self).kv.reliable() ==> final(self).kv.reliable(),
            old(self).kv.roomy() ==> final(self).kv.roomy(),
            others_kept(old(self).model(), final(self).model(), key),
            final(self).model().index.contains_key(key),
            final(self).model().chains.contains_key(key),
            old(self).kv.reliable() ==> r is Ok || fails_with(r, KvError::WriteZero),
            old(self).kv.reliable() && r is Err ==> no_free(final(self).model()),
            r matches Ok(f) ==> step_done(
                old(self).model(),
                final(self).model(),
                key,
                data@,
                offset as int,
                j,
                cur,
                Some(f),
                offset + n,
            ),
    {
        let ghost m0 = self.model();
        let ghost chain = self.model().chains[key];
        proof {
            lemma_chain_head(m0, key);
        }
        let total: usize = data.len();
        let part = copy_range(data, offset, offset + n);
        let f = match self.extend_chain(cur, key, part) {
            Ok(f) => f,
            Err(e) => {
                return Err(e);
            },
        };
        proof {
            let m4 = self.model();
            assert(data@.take(offset as int) + part@ =~= data@.take(offset + n));
            assert(chain.push(f).take(j + 1) =~= chain);
            assert(chain.drop_last() =~= chain.take(j));
            lemma_work_left_new(m0, m4, key, data@.len() as int, offset as int, n as int, j, cur, f);
        }
        Ok(f)
    }

    /// One step of writing where `cur` keeps its link `nx`: the first `n`
    /// bytes from `offset` go to `cur`.
    fn step_in_place(
        &mut self,
        cur: u64,
        key: u64,
        nx: u64,
        data: &[u8],
        offset: usize,
        n: usize,
        Ghost(j): Ghost<int>,
    )
        requires
            old(self).valid(),
            old(self).model().index.contains_key(key),
            0 <= j < old(self).model().chains[key].len(),
            old(self).model().chains[key][j] == cur,
            nx == column(old(self).model(), key)[cur].0,
            offset + n <= data@.len(),
            offset + n < data@.len() ==> nx != 0,
            old(self).model().dirty.contains_key(cur),
            old(self).model().sizes[cur] - weight(old(self).model(), cur, key) + 24 + n
                <= old(self).model().page_size,
            offset + n < data@.len() ==> n >= 1 || !(old(self).model().sizes[cur] == 32 && column(
                old(self).model(),
                key,
            )[cur].1.len() == 0),
            value_along(column(old(self).model(), key), old(self).model().chains[key].take(j))
                == data@.take(offset as int),
        ensures
            final(self).valid(),
            final(self).model().page_size == old(self).model().page_size,
            final(self).model().lower == old(self).model().lower,
            old(self).kv.reliable() ==> final(self).kv.reliable(),
            old(self).kv.roomy() ==> final(self).kv.roomy(),
            others_kept(old(self).model(), final(self).model(), key),
            final(self).model().index.contains_key(key),
            final(self).model().chains.contains_key(key),
            step_done(
                old(self).model(),
                final(self).model(),
                key,
                data@,
                offset as int,
                j,
                cur,
                if offset + n < data@.len() {
                    Some(nx)
                } else {
                    None
                },
                offset + n,
            ),
    {
        let ghost m0 = self.model();
        let ghost chain = self.model().chains[key];
        proof {
            lemma_chain_at(m0, key, j);
        }
        let total: usize = data.len();
        let part = copy_range(data, offset, offset + n);
        let ghost bytes = part@;
        proof {
            assert(data@.take(offset as int) + bytes =~= data@.take(offset + n));
        }
        self.rewrite_chunk(cur, key, nx, part, Ghost(j));
        proof {
            let m2 = self.model();
            assert(m2.chains == m0.chains);
            assert(m2.chains[key] == chain);
            assert(value_along(column(m2, key), chain.take(j + 1)) == data@.take(offset + n));
            if offset + n < data@.len() {
                assert(nx == chain[j + 1]);
                lemma_work_left_next(
                    m0,
                    m2,
                    key,
                    data@.len() as int,
                    offset as int,
                    n as int,
                    j,
                    cur,
                    nx,
                );
            }
        }
    }

    /// Writes what fits of `data[offset..]` into the chunk of `key` in the
    /// page `cur` of its chain. Where more is left, the chunk is linked to the
    /// next page of the chain, or to a new page with an empty chunk; the
    /// result names that page and how far `data` is written. Where all is
    /// written, the chunk keeps its link.
    fn update_chunk(
        &mut self,
        cur: u64,
        key: u64,
        data: &[u8],
        offset: usize,
        Ghost(j): Ghost<int>,
    ) -> (r: Result<(Option<u64>, usize), KvError>)
        requires
            old(self).valid(),
            old(self).model().page_size >= 33,
            old(self).model().index.contains_key(key),
            0 <= j < old(self).model().chains[key].len(),
            old(self).model().chains[key][j] == cur,
            offset <= data@.len(),
            value_along(column(old(self).model(), key), old(self).model().chains[key].take(j))
                == data@.take(offset as int),
        ensures
            final(self).valid(),
            final(self).model().page_size == old(self).model().page_size,
            old(self).kv.reliable() ==> final(self).kv.reliable(),
            old(self).kv.roomy() ==> final(self).kv.roomy(),
            others_kept(old(self).model(), final(self).model(), key),
            final(self).model().index.contains_key(key),
            final(self).model().chains.contains_key(key),
            r matches Ok(step) ==> step_done(
                old(self).model(),
                final(self).model(),
                key,
                data@,
                offset as int,
                j,
                cur,
                step.0,
                step.1 as int,
            ),
            r matches Ok(step) ==> step.1 == offset + chunk_take(
                old(self).model(),
                cur,
                key,
                data@.len() - offset,
            ),
            old(self).kv.reliable() ==> r is Ok || fails_with(r, KvError::WriteZero),
            old(self).kv.reliable() && r is Err ==> no_free(final(self).model()),
    {
        let ghost m0 = self.model();
        let ghost chain = self.model().chains[key];
        let ghost c0 = column(m0, key);
        proof {
            lemma_chain_at(m0, key, j);
            lemma_others_kept_self(m0, key);
        }
        let remaining: usize = data.len() - offset;
        let (nx, n) = match self.plan_chunk(cur, key, remaining) {
            Ok(plan) => plan,
            Err(e) => {
                proof {
                    lemma_same_pages_keys_ok(m0, self.model());
                }
                return Err(e);
            },
        };
        let ghost m1 = self.model();
        proof {
            lemma_same_pages_keys_ok(m0, m1);
            assert(column(m1, key) == c0);
            assert(chunks_at(m1, cur)[key] == c0[cur]);
            assert(page_of(m0, cur) == page_of(m1, cur));
            assert(chunk_take(m1, cur, key, remaining as int) == chunk_take(
                m0,
                cur,
                key,
                remaining as int,
            ));
            assert(value_along(column(m1, key), chain.take(j)) == data@.take(offset as int));
            lemma_chain_at(m1, key, j);
            lemma_same_step(m0, m1, key, data@.len() as int, offset as int, j, cur);
        }
        if n < remaining && nx == 0 {
            match self.step_to_new_page(cur, key, data, offset, n, Ghost(j)) {
                Ok(f) => {
                    proof {
                        lemma_others_kept_step(m0, m1, self.model(), key);
                    }
                    Ok((Some(f), offset + n))
                },
                Err(e) => {
                    proof {
                        lemma_others_kept_step(m0, m1, self.model(), key);
                    }
                    Err(e)
                },
            }
        } else {
            self.step_in_place(cur, key, nx, data, offset, n, Ghost(j));
            proof {
                lemma_others_kept_step(m0, m1, self.model(), key);
            }
            if n < remaining {
                Ok((Some(nx), offset + n))
            } else {
                Ok((None, offset + n))
            }
        }
    }

    /// Takes the page `nx`, which follows `cur` in the chain of `key`, out of
    /// the chain: its chunk of `key` is removed, and the chunk in `cur` is
    /// linked to what followed.
    fn unlink_next(&mut self, cur: u64, key: u64, nx: u64, Ghost(j): Ghost<int>) -> (r: Result<
        (),
        KvError,
    >)
        requires
            old(self).valid(),
            old(self).model().index.contains_key(key),
            0 <= j,
            j + 1 < old(self).model().chains[key].len(),
            old(self).model().chains[key][j] == cur,
            old(self).model().chains[key][j + 1] == nx,
            old(self).model().dirty.contains_key(cur),
        ensures
            final(self).valid(),
            final(self).model().page_size == old(self).model().page_size,
            old(self).kv.reliable() ==> final(self).kv.reliable(),
            old(self).kv.roomy() ==> final(self).kv.roomy(),
            others_kept(old(self).model(), final(self).model(), key),
            final(self).model().index == old(self).model().index,
            final(self).model().dirty.contains_key(cur),
            final(self).model().chains.contains_key(key),
            old(self).kv.reliable() ==> r is Ok,
            r is Err ==> final(self).model().chains == old(self).model().chains && column(
                final(self).model(),
                key,
            ) == column(old(self).model(), key),
            r is Ok ==> {
                &&& final(self).model().chains[key] == old(self).model().chains[key].remove(j + 1)
                &&& value_along(
                    column(final(self).model(), key),
                    final(self).model().chains[key].take(j + 1),
                ) == value_along(column(old(self).model(), key), old(self).model().chains[key].take(j + 1))
            },
    {
        let ghost m0 = self.model();
        let ghost chain = self.model().chains[key];
        let ghost c0 = column(m0, key);
        proof {
            lemma_chain_at(m0, key, j);
            lemma_chain_at(m0, key, j + 1);
            assert(cur != nx);
        }
        match self.load_page(nx) {
            Ok(()) => {},
            Err(e) => {
                proof {
                    lemma_same_pages_keys_ok(m0, self.model());
                }
                return Err(e);
            },
        }
        let ghost m1 = self.model();
        proof {
            lemma_same_pages_keys_ok(m0, m1);
            assert(column(m1, key) == c0);
            self.lemma_wf();
            lemma_base_page(m1, cur);
        }
        let next_chunk = self.set_chunk(nx, key, None);
        let ghost m2 = self.model();
        proof {
            lemma_other_pages(m1, m2, nx, cur);
            assert(chunks_at(m1, cur)[key] == c0[cur]);
        }
        let tn = match next_chunk {
            Some(c) => c.next_page_index,
            None => 0,
        };
        let own_chunk = self.set_chunk(cur, key, None);
        let ghost m3 = self.model();
        let data = match own_chunk {
            Some(c) => c.data,
            None => Vec::new(),
        };
        self.set_chunk(cur, key, Some(Chunk { next_page_index: tn, data }));
        let ghost m4 = self.model();
        self.set_chain(key, Ghost(chain.remove(j + 1)));
        proof {
            let m5 = self.model();
            assert(rekeyed(m4, m5, key));
            lemma_step_unlink(m0, m1, m2, m3, m4, m5, key, j);
            lemma_rekeyed(m4, m5, key);
        }
        Ok(())
    }

    /// Takes every page after `cur` out of the chain of `key`, so that the
    /// value ends with the chunk in `cur`.
    fn trim_chain(&mut self, cur: u64, key: u64, Ghost(j): Ghost<int>) -> (r: Result<(), KvError>)
        requires
            old(self).valid(),
            old(self).model().index.contains_key(key),
            0 <= j < old(self).model().chains[key].len(),
            old(self).model().chains[key][j] == cur,
            old(self).model().dirty.contains_key(cur),
        ensures
            final(self).valid(),
            final(self).model().page_size == old(self).model().page_size,
            old(self).kv.reliable() ==> final(self).kv.reliable(),
            old(self).kv.roomy() ==> final(self).kv.roomy(),
            others_kept(old(self).model(), final(self).model(), key),
            final(self).model().index.contains_key(key),
            r is Ok ==> value_of(final(self).model(), key) == value_along(
                column(old(self).model(), key),
                old(self).model().chains[key].take(j + 1),
            ),
            final(self).model().dirty.contains_key(cur),
            old(self).kv.reliable() ==> r is Ok,
    {
        let ghost m_old = self.model();
        let ghost goal = value_along(column(m_old, key), self.model().chains[key].take(j + 1));
        proof {
            lemma_others_kept_self(m_old, key);
            lemma_chain_head(m_old, key);
        }
        loop
            invariant
                self.valid(),
                m_old == old(self).model(),
                self.model().page_size == old(self).model().page_size,
                old(self).kv.reliable() ==> self.kv.reliable(),
                old(self).kv.roomy() ==> self.kv.roomy(),
                others_kept(m_old, self.model(), key),
                self.model().index.contains_key(key),
                self.model().chains.contains_key(key),
                0 <= j < self.model().chains[key].len(),
                self.model().chains[key][j] == cur,
                self.model().dirty.contains_key(cur),
                value_along(column(self.model(), key), self.model().chains[key].take(j + 1)) == goal,
            ensures
                value_of(self.model(), key) == goal,
            decreases self.model().chains[key].len(),
        {
            let ghost m0 = self.model();
            let ghost chain = self.model().chains[key];
            proof {
                lemma_chain_at(m0, key, j);
            }
            let (nx, _) = self.peek_chunk(cur, key);
            if nx == 0 {
                proof {
                    lemma_whole_chain(m0, key, j);
                }
                break ;
            }
            match self.unlink_next(cur, key, nx, Ghost(j)) {
                Ok(()) => {},
                Err(e) => {
                    proof {
                        lemma_others_kept_step(m_old, m0, self.model(), key);
                    }
                    return Err(e);
                },
            }
            proof {
                lemma_others_kept_step(m_old, m0, self.model(), key);
            }
        }
        Ok(())
    }

    /// Gives `key` the value `data`: rewrites the chunks along its chain,
    /// lengthens the chain where the pages are full, and cuts off what is
    /// left of an older, longer chain.
    fn write_value(&mut self, key: u64, data: &[u8]) -> (r: Result<(), KvError>)
        requires
            old(self).valid(),
            key <= usize::MAX,
        ensures
            final(self).valid(),
            final(self).model().page_size == old(self).model().page_size,
            old(self).kv.reliable() ==> final(self).kv.reliable(),
            old(self).kv.roomy() ==> final(self).kv.roomy(),
            others_kept(old(self).model(), final(self).model(), key),
            r is Ok ==> final(self).model().index.contains_key(key) && value_of(
                final(self).model(),
                key,
            ) == data@,
            no_room(old(self).model().page_size, data@.len()) ==> fails_with(r, KvError::WriteZero)
                && final(self).model() == old(self).model(),
            r is Ok ==> !clean(final(self).model()),
            old(self).kv.reliable() ==> r is Ok || fails_with(r, KvError::WriteZero),
            old(self).kv.reliable() && r is Err ==> no_room(
                old(self).model().page_size,
                data@.len(),
            ) || no_free(final(self).model()),
    {
        let ghost m_old = self.model();
        proof {
            lemma_others_kept_self(m_old, key);
        }
        if self.page_size() < 33 {
            if self.page_size() < 32 || data.len() > 0 {
                return Err(KvError::WriteZero);
            }
            if self.head_of(key).is_some() {
                match self.remove_value(key) {
                    Ok(()) => {},
                    Err(e) => {
                        return Err(e);
                    },
                }
            }
            let ghost m_gone = self.model();
            let r = self.start_value(key, 0);
            proof {
                lemma_others_kept_step(m_old, m_gone, self.model(), key);
                assert(data@ =~= Seq::<u8>::empty());
            }
            return r;
        }
        if self.head_of(key).is_none() {
            match self.start_value(key, data.len() as u64) {
                Ok(()) => {},
                Err(e) => {
                    return Err(e);
                },
            }
        }
        let ghost m_start = self.model();
        let head = match self.head_of(key) {
            Some(h) => h,
            None => {
                return Err(KvError::LocalError);
            },
        };
        let mut cur: u64 = head;
        let mut offset: usize = 0;
        let ghost mut j: int = 0;
        proof {
            lemma_chain_head(m_start, key);
            assert(self.model().chains[key].take(0) =~= Seq::<u64>::empty());
            assert(data@.take(0) =~= Seq::<u8>::empty());
        }
        loop
            invariant_except_break
                value_along(column(self.model(), key), self.model().chains[key].take(j)) == data@.take(
                    offset as int,
                ),
            invariant
                self.valid(),
                m_old == old(self).model(),
                self.model().page_size == old(self).model().page_size,
                self.model().page_size >= 33,
                old(self).kv.reliable() ==> self.kv.reliable(),
                old(self).kv.roomy() ==> self.kv.roomy(),
                others_kept(m_old, self.model(), key),
                self.model().index.contains_key(key),
                self.model().chains.contains_key(key),
                0 <= j < self.model().chains[key].len(),
                self.model().chains[key][j] == cur,
                offset <= data@.len(),
            ensures
                self.model().dirty.contains_key(cur),
                value_along(column(self.model(), key), self.model().chains[key].take(j + 1)) == data@,
            decreases work_left(self.model(), key, data@.len() as int, offset as int, j, cur),
        {
            let ghost m0 = self.model();
            match self.update_chunk(cur, key, data, offset, Ghost(j)) {
                Err(e) => {
                    proof {
                        lemma_others_kept_step(m_old, m0, self.model(), key);
                    }
                    return Err(e);
                },
                Ok(step) => {
                    proof {
                        lemma_others_kept_step(m_old, m0, self.model(), key);
                    }
                    offset = step.1;
                    match step.0 {
                        Some(nx) => {
                            cur = nx;
                            proof {
                                j = j + 1;
                                lemma_work_left_bound(
                                    self.model(),
                                    key,
                                    data@.len() as int,
                                    offset as int,
                                    j,
                                    cur,
                                );
                            }
                        },
                        None => {
                            proof {
                                assert(data@.take(data@.len() as int) =~= data@);
                            }
                            break ;
                        },
                    }
                },
            }
        }
        let ghost m1 = self.model();
        match self.trim_chain(cur, key, Ghost(j)) {
            Ok(()) => {
                proof {
                    lemma_others_kept_step(m_old, m1, self.model(), key);
                }
                Ok(())
            },
            Err(e) => {
                proof {
                    lemma_others_kept_step(m_old, m1, self.model(), key);
                }
                Err(e)
            },
        }
    }

    /// Sets the value of logical index `index` to `data`, or removes it where
    /// `data` is `None`.
    fn update_logical_data(&mut self, index: usize, data: Option<Vec<u8>>) -> (r: Result<
        (),
        KvError,
    >)
        requires
            old(self).valid(),
        ensures
            final(self).valid(),
            final(self).model().page_size == old(self).model().page_size,
            old(self).kv.reliable() ==> final(self).kv.reliable(),
            old(self).kv.roomy() ==> final(self).kv.roomy(),
            others_kept(old(self).model(), final(self).model(), key_of(index)),
            data is Some ==> {
                &&& r is Ok ==> final(self).model().index.contains_key(key_of(index)) && value_of(
                    final(self).model(),
                    key_of(index),
                ) == data->0@
                &&& no_room(old(self).model().page_size, data->0@.len()) ==> fails_with(
                    r,
                    KvError::WriteZero,
                ) && final(self).model() == old(self).model()
                &&& old(self).kv.reliable() ==> r is Ok || fails_with(r, KvError::WriteZero)
                &&& old(self).kv.reliable() && r is Err ==> no_room(
                    old(self).model().page_size,
                    data->0@.len(),
                ) || no_free(final(self).model())
            },
            r is Ok ==> !clean(final(self).model()),
            data is None ==> {
                &&& !old(self).model().index.contains_key(key_of(index)) <==> fails_with(
                    r,
                    KvError::NotFound,
                )
                &&& !old(self).model().index.contains_key(key_of(index)) ==> final(self).model()
                    == old(self).model()
                &&& r is Ok ==> old(self).model().index.contains_key(key_of(index))
                    && !final(self).model().index.contains_key(key_of(index))
                &&& old(self).kv.reliable() && old(self).model().index.contains_key(key_of(index))
                    ==> r is Ok
            },
    {
        let key = index as u64;
        match data {
            Some(d) => self.write_value(key, d.as_slice()),
            None => {
                if self.head_of(key).is_none() {
                    proof {
                        lemma_others_kept_self(self.model(), key);
                    }
                    return Err(KvError::NotFound);
                }
                self.remove_value(key)
            },
        }
    }

    /// Reads the value of `index` along its chain.
    fn read_value(&mut self, index: usize) -> (r: Result<Vec<u8>, KvError>)
        requires
            old(self).valid(),
        ensures
            final(self).valid(),
            final(self).model() == old(self).model(),
            old(self).kv.reliable() ==> final(self).kv.reliable(),
            old(self).kv.roomy() ==> final(self).kv.roomy(),
            r matches Ok(b) ==> old(self).model().index.contains_key(key_of(index)) && b@
                == value_of(old(self).model(), key_of(index)),
            !old(self).model().index.contains_key(key_of(index)) <==> fails_with(
                r,
                KvError::NotFound,
            ),
            old(self).kv.reliable() && old(self).model().index.contains_key(key_of(index))
                ==> r is Ok,
    {
        let key = index as u64;
        let head = match self.head_of(key) {
            None => {
                return Err(KvError::NotFound);
            },
            Some(h) => h,
        };
        let ghost m0 = self.model();
        let ghost chain = self.model().chains[key];
        let ghost c0 = column(m0, key);
        let mut result: Vec<u8> = Vec::new();
        let mut cur: u64 = head;
        let ghost mut j: int = 0;
        proof {
            lemma_chain_head(m0, key);
            assert(chain.take(0) =~= Seq::<u64>::empty());
        }
        loop
            invariant
                self.wf(),
                self.model() == m0,
                m0 == old(self).model(),
                keys_ok(m0),
                old(self).kv.reliable() ==> self.kv.reliable(),
                old(self).kv.roomy() ==> self.kv.roomy(),
                c0 == column(m0, key),
                chain == m0.chains[key],
                key == key_of(index),
                m0.index.contains_key(key),
                0 <= j < chain.len(),
                cur == chain[j],
                result@ == value_along(c0, chain.take(j)),
            decreases chain.len() - j,
        {
            proof {
                lemma_chain_at(m0, key, j);
            }
            let chunk = match self.fetch_chunk(cur, key) {
                Ok(Some(c)) => c,
                Ok(None) => {
                    return Err(KvError::NotFound);
                },
                Err(e) => {
                    return Err(e);
                },
            };
            proof {
                assert(chain.take(j + 1) =~= chain.take(j).push(cur));
                lemma_value_push(c0, chain.take(j), cur);
                if j + 1 == chain.len() {
                    lemma_whole_chain(m0, key, j);
                }
            }
            if chunk.next_page_index == 0 && result.len() == 0 {
                assert(Seq::<u8>::empty() + chunk.data@ =~= chunk.data@);
                return Ok(chunk.data);
            }
            put_range(&mut result, chunk.data.as_slice(), 0, chunk.data.len());
            assert(chunk.data@.subrange(0, chunk.data@.len() as int) =~= chunk.data@);
            if chunk.next_page_index == 0 {
                return Ok(result);
            }
            cur = chunk.next_page_index;
            proof {
                j = j + 1;
            }
        }
    }

    /// Picks the places of `n` meta pages: place 0 first, then the places of
    /// the meta pages of the last flush in their order, then free places.
    fn assign_meta_places(&mut self, n: usize) -> (r: Result<Vec<u64>, KvError>)
        requires
            old(self).valid(),
            n >= 1,
        ensures
            final(self).valid(),
            final(self).model() == old(self).model(),
            old(self).kv.reliable() ==> final(self).kv.reliable(),
            old(self).kv.roomy() ==> final(self).kv.roomy(),
            old(self).kv.reliable() ==> r is Ok || fails_with(r, KvError::WriteZero),
            old(self).kv.reliable() && r is Err ==> meta_lacks(old(self).model(), n - 1),
            r matches Ok(places) ==> {
                let m = old(self).model();
                &&& places@.len() == n
                &&& places@[0] == 0
                &&& places@.no_duplicates()
                &&& forall|i: int|
                    0 <= i < n ==> !m.sizes.contains_key(#[trigger] places@[i]) && places@[i]
                        <= usize::MAX
                &&& forall|i: int| 0 <= i < n && i < m.meta.len() ==> #[trigger] places@[i] == m.meta[i]
                &&& forall|i: int|
                    1 <= i < n && i >= m.meta.len() ==> free_at(m, places@.take(i), #[trigger] places@[i])
            },
    {
        let ghost m = self.model();
        let old_meta = copy_u64s(self.meta_places());
        let mut places: Vec<u64> = Vec::new();
        places.push(0u64);
        proof {
            self.lemma_wf();
            lemma_base_meta(m);
            if m.sizes.contains_key(0) {
                lemma_base_page(m, 0);
            }
        }
        while places.len() < n
            invariant
                self.valid(),
                self.model() == m,
                m == old(self).model(),
                old(self).kv.reliable() ==> self.kv.reliable(),
                old(self).kv.roomy() ==> self.kv.roomy(),
                old_meta@ == m.meta,
                m.meta.no_duplicates(),
                forall|i: int|
                    0 <= i < m.meta.len() ==> !m.sizes.contains_key(#[trigger] m.meta[i])
                        && m.meta[i] <= usize::MAX,
                m.meta.len() > 0 ==> m.meta[0] == 0,
                1 <= places@.len() <= n,
                places@[0] == 0,
                places@.no_duplicates(),
                forall|i: int|
                    0 <= i < places@.len() ==> !m.sizes.contains_key(#[trigger] places@[i])
                        && places@[i] <= usize::MAX,
                forall|i: int|
                    0 <= i < places@.len() && i < m.meta.len() ==> #[trigger] places@[i]
                        == m.meta[i],
                forall|i: int|
                    1 <= i < places@.len() && i >= m.meta.len() ==> free_at(
                        m,
                        places@.take(i),
                        #[trigger] places@[i],
                    ),
            decreases n - places@.len(),
        {
            let i = places.len();
            let ghost before = places@;
            if i < old_meta.len() {
                let place = old_meta[i];
                places.push(place);
                proof {
                    assert forall|a: int, b: int|
                        0 <= a < places@.len() && 0 <= b < places@.len() && a != b implies places@[a]
                        != places@[b] by {
                        if a < i && b < i {
                            assert(before[a] != before[b]);
                        } else if a < i {
                            assert(before[a] == m.meta[a]);
                        } else {
                            assert(before[b] == m.meta[b]);
                        }
                    }
                    assert forall|k: int| 1 <= k < places@.len() && k >= m.meta.len() implies free_at(
                        m,
                        places@.take(k),
                        #[trigger] places@[k],
                    ) by {
                        assert(places@.take(k) =~= before.take(k));
                    }
                }
            } else {
                let f = match self.find_free_index(&places) {
                    Ok(f) => f,
                    Err(e) => {
                        proof {
                            if old(self).kv.reliable() {
                                lemma_meta_lacks(m, places@, n - 1);
                            }
                        }
                        return Err(e);
                    },
                };
                places.push(f);
                proof {
                    assert forall|a: int, b: int|
                        0 <= a < places@.len() && 0 <= b < places@.len() && a != b implies places@[a]
                        != places@[b] by {
                        if a < i && b < i {
                            assert(before[a] != before[b]);
                        } else if a < i {
                            assert(before.contains(before[a]));
                        } else {
                            assert(before.contains(before[b]));
                        }
                    }
                    assert forall|k: int| 1 <= k < places@.len() && k >= m.meta.len() implies free_at(
                        m,
                        places@.take(k),
                        #[trigger] places@[k],
                    ) by {
                        if k < i {
                            assert(places@.take(k) =~= before.take(k));
                        } else {
                            assert(places@.take(k) =~= before);
                        }
                    }
                }
            }
        }
        Ok(places)
    }

    /// Writes the meta pages to their places in the store below, each
    /// linked to the next, and padded to the page size.
    fn write_meta_pages(&mut self, pages: &Vec<crate::page_codec::MetaPage>, places: &Vec<u64>) -> (r:
        Result<(), KvError>)
        requires
            old(self).valid(),
            !old(self).model().tidy,
            data_pages_stored(old(self).model()),
            pages@.len() == places@.len(),
            meta_pages_fit(pages@, old(self).model().page_size),
            places@.no_duplicates(),
            forall|i: int|
                0 <= i < places@.len() ==> !old(self).model().sizes.contains_key(
                    #[trigger] places@[i],
                ) && places@[i] <= usize::MAX,
        ensures
            final(self).valid(),
            lower_changed(old(self).model(), final(self).model()),
            data_pages_stored(final(self).model()),
            model_blocks(final(self).model()) == model_blocks(old(self).model()),
            old(self).kv.reliable() && r is Ok ==> final(self).kv.reliable(),
            old(self).kv.roomy() ==> final(self).kv.roomy(),
            old(self).kv.reliable() ==> r is Ok || fails_with(r, KvError::WriteZero),
            old(self).kv.reliable() && old(self).kv.roomy() ==> r is Ok,
            r is Ok ==> forall|i: int|
                0 <= i < places@.len() ==> final(self).model().lower.contains_key(
                    #[trigger] places@[i] as usize,
                ) && final(self).model().lower[places@[i] as usize].len() == final(self).model().page_size,
            r is Ok ==> meta_stored(final(self).model().lower, places@, pages@),
            forall|q: usize|
                !places@.contains(q as u64) ==> (#[trigger] final(self).model().lower.contains_key(q)
                    == old(self).model().lower.contains_key(q)),
            forall|q: usize|
                !places@.contains(q as u64) && #[trigger] old(self).model().lower.contains_key(q)
                    ==> final(self).model().lower[q] == old(self).model().lower[q],
    {
        let ghost m_old = self.model();
        let n = pages.len();
        let page_size = self.page_size();
        proof {
            self.lemma_wf();
            lemma_base_meta(m_old);
        }
        let mut i: usize = 0;
        while i < n
            invariant
                i <= n,
                n == pages@.len(),
                n == places@.len(),
                self.valid(),
                m_old == old(self).model(),
                !m_old.tidy,
                lower_changed(m_old, self.model()),
                page_size == m_old.page_size,
                page_size <= usize::MAX,
                data_pages_stored(self.model()),
                model_blocks(self.model()) == model_blocks(m_old),
                old(self).kv.reliable() ==> self.kv.reliable(),
                old(self).kv.roomy() ==> self.kv.roomy(),
                meta_pages_fit(pages@, page_size),
                places@.no_duplicates(),
                forall|k: int|
                    0 <= k < places@.len() ==> !m_old.sizes.contains_key(#[trigger] places@[k])
                        && places@[k] <= usize::MAX,
                forall|k: int|
                    0 <= k < i ==> self.model().lower.contains_key(#[trigger] places@[k] as usize)
                        && self.model().lower[places@[k] as usize].len() == page_size
                        && parse_meta_page(self.model().lower[places@[k] as usize]) == Some(
                        (
                            crate::page_model::next_in(places@, k),
                            pages@[k].map_index@,
                            pages@[k].data_size_indexes@,
                        ),
                    ),
                forall|q: usize|
                    !places@.contains(q as u64) ==> (#[trigger] self.model().lower.contains_key(q)
                        == m_old.lower.contains_key(q)),
                forall|q: usize|
                    !places@.contains(q as u64) && #[trigger] m_old.lower.contains_key(q)
                        ==> self.model().lower[q] == m_old.lower[q],
            decreases n - i,
        {
            let ghost m0 = self.model();
            proof {
                self.lemma_wf();
            }
            let next: u64 = if i + 1 < n {
                places[i + 1]
            } else {
                0
            };
            assert(pages@[i as int].wf());
            let bytes = pages[i].encode(next, page_size as usize);
            let place = places[i];
            let len_a = pages[i].map_index.len();
            let len_b = pages[i].data_size_indexes.len();
            proof {
                lemma_parse_meta_page(
                    next,
                    pages@[i as int].map_index@,
                    pages@[i as int].data_size_indexes@,
                    page_size as int,
                );
            }
            let outcome = self.write_lower(place, bytes);
            proof {
                let m1 = self.model();
                self.lemma_wf();
                lemma_stored_after_lower(m0, m1, place);
                assert forall|q: usize| !places@.contains(q as u64) implies (
                #[trigger] m1.lower.contains_key(q) == m_old.lower.contains_key(q)) by {
                    assert(q != place as usize) by {
                        if q == place as usize {
                            assert(places@[i as int] == q as u64);
                        }
                    }
                    assert(m1.lower.remove(place as usize).contains_key(q) == m1.lower.contains_key(
                        q,
                    ));
                    assert(m0.lower.remove(place as usize).contains_key(q) == m0.lower.contains_key(
                        q,
                    ));
                }
                assert forall|q: usize|
                    !places@.contains(q as u64) && #[trigger] m_old.lower.contains_key(
                        q,
                    ) implies m1.lower[q] == m_old.lower[q] by {
                    assert(q != place as usize) by {
                        if q == place as usize {
                            assert(places@[i as int] == q as u64);
                        }
                    }
                    assert(m1.lower.remove(place as usize)[q] == m1.lower[q]);
                    assert(m0.lower.remove(place as usize)[q] == m0.lower[q]);
                    assert(m0.lower.contains_key(q));
                }
            }
            match outcome {
                Ok(()) => {},
                Err(e) => {
                    return Err(e);
                },
            }
            proof {
                let m1 = self.model();
                assert forall|k: int| 0 <= k < i + 1 implies m1.lower.contains_key(
                    #[trigger] places@[k] as usize,
                ) && m1.lower[places@[k] as usize].len() == page_size && parse_meta_page(
                    m1.lower[places@[k] as usize],
                ) == Some(
                    (
                        crate::page_model::next_in(places@, k),
                        pages@[k].map_index@,
                        pages@[k].data_size_indexes@,
                    ),
                ) by {
                    if k < i {
                        assert(places@[k] != places@[i as int]);
                    }
                }
            }
            i = i + 1;
        }
        Ok(())
    }

    /// Removes from the store below the meta pages of the last flush from
    /// position `from` on.
    fn erase_meta_pages(&mut self, from: usize, Ghost(kept): Ghost<Seq<u64>>) -> (r: Result<
        (),
        KvError,
    >)
        requires
            old(self).valid(),
            !old(self).model().tidy,
            data_pages_stored(old(self).model()),
            forall|i: int, k: int|
                0 <= i < kept.len() && from <= k < old(self).model().meta.len() ==> (
                #[trigger] kept[i]) != #[trigger] old(self).model().meta[k],
            forall|i: int| 0 <= i < kept.len() ==> (#[trigger] kept[i]) <= usize::MAX,
        ensures
            final(self).valid(),
            lower_changed(old(self).model(), final(self).model()),
            r is Ok ==> forall|q: usize| #[trigger]
                final(self).model().lower.contains_key(q) ==> old(self).model().lower.contains_key(q),
            r is Ok ==> forall|k: int|
                from <= k < old(self).model().meta.len() ==> !final(self).model().lower.contains_key(
                    (#[trigger] old(self).model().meta[k]) as usize,
                ),
            data_pages_stored(final(self).model()),
            model_blocks(final(self).model()) == model_blocks(old(self).model()),
            old(self).kv.reliable() ==> final(self).kv.reliable(),
            old(self).kv.roomy() ==> final(self).kv.roomy(),
            old(self).kv.reliable() ==> r is Ok,
            forall|i: int|
                0 <= i < kept.len() ==> (final(self).model().lower.contains_key(
                    #[trigger] kept[i] as usize,
                ) == old(self).model().lower.contains_key(kept[i] as usize)) && final(self).model().lower[kept[i] as usize] == old(self).model().lower[kept[i] as usize],
    {
        let ghost m_old = self.model();
        let old_meta = copy_u64s(self.meta_places());
        proof {
            self.lemma_wf();
            lemma_base_meta(m_old);
        }
        let mut i: usize = from;
        while i < old_meta.len()
            invariant
                self.valid(),
                m_old == old(self).model(),
                !m_old.tidy,
                old_meta@ == m_old.meta,
                lower_changed(m_old, self.model()),
                data_pages_stored(self.model()),
                model_blocks(self.model()) == model_blocks(m_old),
                old(self).kv.reliable() ==> self.kv.reliable(),
                old(self).kv.roomy() ==> self.kv.roomy(),
                from <= i,
                forall|q: usize| #[trigger]
                    self.model().lower.contains_key(q) ==> m_old.lower.contains_key(q),
                forall|k: int|
                    from <= k < i && k < m_old.meta.len() ==> !self.model().lower.contains_key(
                        (#[trigger] m_old.meta[k]) as usize,
                    ),
                forall|k: int|
                    0 <= k < m_old.meta.len() ==> !m_old.sizes.contains_key(#[trigger] m_old.meta[k])
                        && m_old.meta[k] <= usize::MAX,
                forall|a: int, k: int|
                    0 <= a < kept.len() && from <= k < m_old.meta.len() ==> (#[trigger] kept[a])
                        != #[trigger] m_old.meta[k],
                forall|a: int| 0 <= a < kept.len() ==> (#[trigger] kept[a]) <= usize::MAX,
                forall|a: int|
                    0 <= a < kept.len() ==> (self.model().lower.contains_key(
                        #[trigger] kept[a] as usize,
                    ) == m_old.lower.contains_key(kept[a] as usize)) && self.model().lower[kept[a] as usize]
                        == m_old.lower[kept[a] as usize],
            decreases old_meta@.len() - i,
        {
            let ghost m0 = self.model();
            proof {
                self.lemma_wf();
            }
            let place = old_meta[i];
            let outcome = self.erase_lower(place);
            proof {
                let m1 = self.model();
                self.lemma_wf();
                lemma_stored_after_lower(m0, m1, place);
                assert forall|a: int| 0 <= a < kept.len() implies (m1.lower.contains_key(
                    #[trigger] kept[a] as usize,
                ) == m_old.lower.contains_key(kept[a] as usize)) && m1.lower[kept[a] as usize]
                    == m_old.lower[kept[a] as usize] by {
                    assert(kept[a] != m_old.meta[i as int]);
                    let q = kept[a] as usize;
                    assert(q != place as usize);
                    assert(m1.lower.remove(place as usize).contains_key(q) == m1.lower.contains_key(
                        q,
                    ));
                    assert(m0.lower.remove(place as usize).contains_key(q) == m0.lower.contains_key(
                        q,
                    ));
                    assert(m1.lower.remove(place as usize)[q] == m1.lower[q]);
                    assert(m0.lower.remove(place as usize)[q] == m0.lower[q]);
                }
            }
            match outcome {
                Ok(()) => {},
                Err(e) => {
                    return Err(e);
                },
            }
            i = i + 1;
        }
        Ok(())
    }

    /// Stores the dirty data pages below and forgets them.
    fn store_data_pages(&mut self) -> (r: Result<(), KvError>)
        requires
            old(self).valid(),
        ensures
            final(self).valid(),
            final(self).model().page_size == old(self).model().page_size,
            final(self).model().tidy == old(self).model().tidy,
            model_blocks(final(self).model()) == model_blocks(old(self).model()),
            old(self).kv.reliable() && r is Ok ==> final(self).kv.reliable(),
            old(self).kv.roomy() ==> final(self).kv.roomy(),
            old(self).kv.reliable() ==> r is Ok || fails_with(r, KvError::WriteZero),
            old(self).kv.reliable() && old(self).kv.roomy() ==> r is Ok,
            r is Ok ==> data_pages_stored(final(self).model()),
    {
        let ghost m_old = self.model();
        match self.store_dirty_pages() {
            Ok(()) => {},
            Err(e) => {
                proof {
                    lemma_same_pages(m_old, self.model());
                }
                return Err(e);
            },
        }
        proof {
            lemma_same_pages(m_old, self.model());
        }
        self.forget_dirty_pages();
        proof {
            self.lemma_wf();
            lemma_clean_is_stored(self.model());
        }
        Ok(())
    }

    /// Stores the index and the sizes in meta pages from place 0 on,
    /// removes the meta pages of before that are no longer used, and has
    /// the store below persist all of it.
    fn store_meta_pages(&mut self) -> (r: Result<(), KvError>)
        requires
            old(self).valid(),
            !old(self).model().tidy,
            data_pages_stored(old(self).model()),
        ensures
            final(self).valid(),
            !final(self).model().tidy,
            final(self).model().page_size == old(self).model().page_size,
            final(self).model().index == old(self).model().index,
            model_blocks(final(self).model()) == model_blocks(old(self).model()),
            old(self).kv.reliable() && r is Ok ==> final(self).kv.reliable(),
            old(self).kv.roomy() ==> final(self).kv.roomy(),
            old(self).kv.reliable() ==> r is Ok || fails_with(r, KvError::WriteZero),
            r is Ok ==> data_pages_stored(final(self).model()),
            r is Ok ==> meta_pages_stored(final(self).model()),
            r is Ok ==> image_ok(final(self).model()),
            r is Ok ==> meta_rewritten(old(self).model(), final(self).model()),
            r is Ok ==> final(self).kv.persisted(),
            old(self).kv.reliable() && old(self).kv.roomy() && r is Err ==> final(self).model()
                == old(self).model() && final(self).cannot_flush(),
            r is Ok && old(self).map_index@.len() + old(self).data_page_sizes@.len() == 0
                ==> final(self).model().meta.len() == 1,
    {
        let ghost m1 = self.model();
        let pages = match self.build_meta_pages() {
            Some(pages) => pages,
            None => {
                return Err(KvError::WriteZero);
            },
        };
        let ghost index_seq = self.map_index@;
        let ghost sizes_seq = self.data_page_sizes@;
        proof {
            self.lemma_model();
        }
        let places = match self.assign_meta_places(pages.len()) {
            Ok(places) => places,
            Err(e) => {
                proof {
                    self.lemma_model();
                    crate::sorted_map::lemma_same_map_same_seq(index_seq, self.map_index@);
                    crate::sorted_map::lemma_same_map_same_seq(sizes_seq, self.data_page_sizes@);
                    if old(self).kv.reliable() {
                        lemma_meta_lacks_more(
                            m1,
                            pages@.len() - 1,
                            (index_seq.len() + sizes_seq.len()) as int,
                        );
                    }
                }
                return Err(e);
            },
        };
        match self.write_meta_pages(&pages, &places) {
            Ok(()) => {},
            Err(e) => {
                return Err(e);
            },
        }
        let ghost m2 = self.model();
        proof {
            assert forall|i: int, k: int|
                0 <= i < places@.len() && pages@.len() <= k < m2.meta.len() implies (
            #[trigger] places@[i]) != #[trigger] m2.meta[k] by {
                self.lemma_wf();
                lemma_base_meta(m2);
                assert(places@[i] == m1.meta[i]);
            }
        }
        match self.erase_meta_pages(pages.len(), Ghost(places@)) {
            Ok(()) => {},
            Err(e) => {
                return Err(e);
            },
        }
        let ghost m_erased = self.model();
        match self.flush_lower() {
            Ok(()) => {},
            Err(e) => {
                return Err(e);
            },
        }
        let ghost lower_written = m2.lower;
        proof {
            assert(meta_stored(m_erased.lower, places@, pages@)) by {
                assert forall|k: int| 0 <= k < places@.len() implies {
                    &&& (#[trigger] places@[k]) <= usize::MAX
                    &&& m_erased.lower.contains_key(places@[k] as usize)
                    &&& parse_meta_page(m_erased.lower[places@[k] as usize]) == Some(
                        (
                            crate::page_model::next_in(places@, k),
                            pages@[k].map_index@,
                            pages@[k].data_size_indexes@,
                        ),
                    )
                } by {
                    assert(lower_written.contains_key(places@[k] as usize));
                }
            }
        }
        self.set_meta(places);
        proof {
            let m3 = self.model();
            assert forall|p: u64| #[trigger] m3.sizes.contains_key(p) implies m3.lower.contains_key(
                p as usize,
            ) && m3.lower[p as usize].len() == m3.page_size by {}
            lemma_image(m3, pages@, index_seq, sizes_seq);
            lemma_base_meta(m1);
            lemma_meta_rewritten(m1, m2, m_erased, m3, m3.meta);
        }
        Ok(())
    }

    /// Stores every change below: the dirty data pages, then the index and
    /// the sizes in meta pages from place 0 on, and has the store below
    /// persist them. Nothing is done where no data page is dirty.
    fn flush_pages(&mut self) -> (r: Result<(), KvError>)
        requires
            old(self).valid(),
        ensures
            final(self).valid(),
            final(self).model().page_size == old(self).model().page_size,
            model_blocks(final(self).model()) == model_blocks(old(self).model()),
            old(self).kv.reliable() && r is Ok ==> final(self).kv.reliable(),
            old(self).kv.roomy() ==> final(self).kv.roomy(),
            old(self).kv.reliable() ==> r is Ok || fails_with(r, KvError::WriteZero),
            r is Ok ==> data_pages_stored(final(self).model()),
            r is Ok && !clean(old(self).model()) ==> meta_pages_stored(final(self).model()),
            r is Ok && (image_ok(old(self).model()) || !clean(old(self).model())) ==> image_ok(
                final(self).model(),
            ),
            r is Ok ==> final(self).model().tidy == old(self).model().tidy,
            r is Ok && !clean(old(self).model()) && final(self).model().tidy && (forall|l: u64|
                !final(self).model().index.contains_key(l)) ==> final(self).model().meta.len() == 1,
            r is Ok && !clean(old(self).model()) ==> final(self).kv.persisted(),
            clean(old(self).model()) ==> r is Ok && final(self).kv == old(self).kv
                && final(self).model() == old(self).model(),
            old(self).kv.reliable() && old(self).kv.roomy() && r is Err ==> final(self).cannot_flush(),
    {
        let ghost m_old = self.model();
        if self.is_clean() {
            proof {
                self.lemma_wf();
                lemma_clean_is_stored(m_old);
            }
            return Ok(());
        }
        match self.store_data_pages() {
            Ok(()) => {},
            Err(e) => {
                return Err(e);
            },
        }
        let ghost m1 = self.model();
        let ghost tidy = m1.tidy;
        proof {
            self.lemma_wf();
        }
        self.set_tidy(Ghost(false));
        let ghost m2 = self.model();
        proof {
            self.lemma_model();
            if tidy && (forall|l: u64| !m1.index.contains_key(l)) {
                lemma_tidy_empty(m1);
                assert(self.data_page_sizes@.len() == 0) by {
                    if self.data_page_sizes@.len() > 0 {
                        crate::sorted_map::lemma_entry_in_map(self.data_page_sizes@, 0);
                    }
                }
                assert(self.map_index@.len() == 0) by {
                    if self.map_index@.len() > 0 {
                        crate::sorted_map::lemma_entry_in_map(self.map_index@, 0);
                    }
                }
            }
        }
        match self.store_meta_pages() {
            Ok(()) => {},
            Err(e) => {
                return Err(e);
            },
        }
        let ghost m3 = self.model();
        proof {
            self.lemma_wf();
            if tidy {
                lemma_tidy_same(m1, m2);
                lemma_tidy_meta(m2, m3);
            }
        }
        self.set_tidy(Ghost(tidy));
        proof {
            let m4 = self.model();
            assert(image_ok(m4));
            assert(data_pages_stored(m4));
            assert(meta_pages_stored(m4));
        }
        Ok(())
    }
}

impl<K: IntKv> IntKv for PageIntKv<K> {
    /// What holds of the layer between calls.
    open spec fn inv(&self) -> bool {
        self.valid()
    }

    /// The blocks that the layer holds.
    open spec fn blocks(&self) -> Map<usize, Seq<u8>> {
        model_blocks(self.model())
    }

    /// Whether no call fails for a reason of the store below.
    open spec fn reliable(&self) -> bool {
        self.kv.reliable()
    }

    /// The layer does not say that it has room: when a write or a flush
    /// finds none is said with each.
    open spec fn roomy(&self) -> bool {
        false
    }

    /// Nothing waits for a flush in this layer: no data page is dirty.
    open spec fn persisted(&self) -> bool {
        clean(self.model())
    }

    /// Reads the value of `index`: the bytes of its chunks along its chain.
    /// Nothing changes but in the store below.
    fn read(&mut self, index: usize) -> (r: Result<Vec<u8>, KvError>)
        ensures
            final(self).model() == old(self).model(),
            old(self).kv.roomy() ==> final(self).kv.roomy(),
    {
        self.read_value(index)
    }

    /// Sets the value of `index`. The value is cut into chunks along its
    /// chain of data pages, each as long as its page has room. No value can
    /// be written where a page is shorter than 32 bytes, none but the empty
    /// one where it has 32 bytes, and none where no place is left for a new
    /// page: the write is then refused with `WriteZero`.
    /// Nothing is written below before the next flush.
    fn write(&mut self, index: usize, data: Vec<u8>) -> (r: Result<(), KvError>)
        ensures
            no_room(old(self).model().page_size, data@.len()) ==> fails_with(r, KvError::WriteZero)
                && final(self).model() == old(self).model(),
            final(self).model().page_size == old(self).model().page_size,
            final(self).model().tidy == old(self).model().tidy,
            final(self).kv.blocks() == old(self).kv.blocks(),
            old(self).kv.roomy() ==> final(self).kv.roomy(),
            r is Ok ==> !clean(final(self).model()),
            old(self).kv.reliable() && r is Err ==> no_room(
                old(self).model().page_size,
                data@.len(),
            ) || no_free(final(self).model()),
    {
        let ghost m0 = self.model();
        proof {
            self.lemma_wf();
        }
        let r = self.update_logical_data(index, Some(data));
        proof {
            self.lemma_wf();
            lemma_others_kept_blocks(m0, self.model(), index);
            lemma_others_kept_lower(m0, self.model(), key_of(index));
        }
        r
    }

    /// Removes the value of `index` from every page of its chain. Nothing
    /// is written below before the next flush.
    fn remove(&mut self, index: usize) -> (r: Result<(), KvError>)
        ensures
            final(self).model().page_size == old(self).model().page_size,
            final(self).model().tidy == old(self).model().tidy,
            final(self).kv.blocks() == old(self).kv.blocks(),
            old(self).kv.roomy() ==> final(self).kv.roomy(),
            r is Ok ==> !clean(final(self).model()),
            !old(self).blocks().contains_key(index) ==> fails_with(r, KvError::NotFound)
                && final(self).model() == old(self).model(),
    {
        let ghost m0 = self.model();
        proof {
            self.lemma_wf();
        }
        let r = self.update_logical_data(index, None);
        proof {
            self.lemma_wf();
            lemma_others_kept_blocks(m0, self.model(), index);
            lemma_others_kept_lower(m0, self.model(), key_of(index));
        }
        r
    }

    /// Whether `index` has a value.
    fn has(&mut self, index: usize) -> (r: Result<bool, KvError>)
        ensures
            final(self).model() == old(self).model(),
            final(self).kv == old(self).kv,
            r == Ok::<bool, KvError>(old(self).blocks().contains_key(index)),
    {
        Ok(self.head_of(index as u64).is_some())
    }

    /// Stores every change in the store below, in pages of the page size.
    /// After that every data page is a block of the page size below, and so
    /// is every meta page where anything was stored. A layer that is opened
    /// on the blocks below finds what this layer holds. Below a tidy layer
    /// nothing is left then but its pages, and nothing but a meta page at
    /// place 0 where the layer holds no block.
    fn flush(&mut self) -> (r: Result<(), KvError>)
        ensures
            final(self).model().page_size == old(self).model().page_size,
            r is Ok ==> final(self).model().tidy == old(self).model().tidy,
            r is Ok ==> data_pages_stored(final(self).model()),
            r is Ok && !clean(old(self).model()) ==> meta_pages_stored(final(self).model()),
            r is Ok && (!clean(old(self).model()) || stored_image(
                old(self).model().page_size,
                old(self).kv.blocks(),
                old(self).model(),
            )) ==> stored_image(
                final(self).model().page_size,
                final(self).kv.blocks(),
                final(self).model(),
            ),
            r is Ok && !clean(old(self).model()) ==> final(self).kv.persisted(),
            clean(old(self).model()) ==> r is Ok && final(self).kv == old(self).kv,
            old(self).kv.reliable() && old(self).kv.roomy() && r is Err ==> final(self).cannot_flush(),
            old(self).kv.roomy() ==> final(self).kv.roomy(),
            r is Ok && !clean(old(self).model()) && final(self).model().tidy ==> forall|q: usize| #[trigger]
                final(self).kv.blocks().contains_key(q) ==> final(self).kv.blocks()[q].len()
                    == final(self).model().page_size,
            r is Ok && !clean(old(self).model()) && final(self).model().tidy && (forall|i: usize|
                !final(self).blocks().contains_key(i)) ==> forall|q: usize| #[trigger]
                final(self).kv.blocks().contains_key(q) ==> q == 0,
    {
        let r = self.flush_pages();
        proof {
            self.lemma_wf();
            assert(self.meta_pages.len() == self.meta_pages@.len());
            let m = self.model();
            if r is Ok && !clean(old(self).model()) && m.tidy {
                lemma_tidy_blocks(m);
                lemma_index_fits(m);
                if forall|l: u64| !m.index.contains_key(l) {
                    lemma_tidy_emptied(m);
                }
            }
        }
        r
    }
}

} // verus!
