//! Data groups as read from a file, and the data blocks they reference.
use crate::blocks::common::{u64_at, BlockHeader, BlockParse};
use crate::blocks::data_block::{dl_data_links, dl_id, dl_min_len, dt_block_id, dv_block_id};
use crate::blocks::{ChannelBlock, ChannelGroupBlock, DataBlock, DataGroupBlock, DataListBlock};
use crate::error::{Error, Result};
use crate::text::{lossy_utf8, str_eq};
use vstd::prelude::*;
use vstd::slice::slice_subrange;
use vstd::string::StringExecFns;

verus! {

/// A channel as read from a file.
pub struct RawChannel {
    pub block: ChannelBlock,
}

/// A channel group as read from a file, with its channels.
pub struct RawChannelGroup {
    pub block: ChannelGroupBlock,
    pub raw_channels: Vec<RawChannel>,
}

/// A data group as read from a file, with its channel groups.
pub struct RawDataGroup {
    pub block: DataGroupBlock,
    pub channel_groups: Vec<RawChannelGroup>,
}

/// The bytes of the image `m` from `addr` on.
pub open spec fn from_addr(m: Seq<u8>, addr: int) -> Seq<u8> {
    m.subrange(addr, m.len() as int)
}

/// The identifier of the block at `addr`.
pub open spec fn id_at(m: Seq<u8>, addr: int) -> Seq<char> {
    lossy_utf8(m.subrange(addr, addr + 4))
}

/// The addresses of the data blocks that the chain starting at `addr`
/// lists, in order: a data block (`##DT`, `##DV`) is itself, a data list
/// block (`##DL`) lists its fragments and then continues with the next
/// list block, and address 0 ends the chain. `None` when the chain leaves
/// the image, meets a block of another kind or a malformed list block, or
/// passes more than `fuel` blocks.
pub open spec fn data_chain(m: Seq<u8>, addr: u64, fuel: nat) -> Option<Seq<u64>>
    decreases fuel,
{
    if addr == 0 {
        Some(Seq::empty())
    } else if fuel == 0 || addr + 24 > m.len() {
        None
    } else {
        let b = from_addr(m, addr as int);
        let id = id_at(m, addr as int);
        if id == dt_block_id() || id == dv_block_id() {
            Some(seq![addr])
        } else if id == dl_id() && u64_at(b, 16) >= 1 && b.len() >= dl_min_len(u64_at(b, 16)) {
            match data_chain(m, u64_at(b, 24), (fuel - 1) as nat) {
                Some(rest) => Some(dl_data_links(b, u64_at(b, 16)) + rest),
                None => None,
            }
        } else {
            None
        }
    }
}

/// Whether a well-formed data block starts at `addr`.
pub open spec fn data_block_at(m: Seq<u8>, addr: u64) -> bool {
    let b = from_addr(m, addr as int);
    &&& addr + 24 <= m.len()
    &&& id_at(m, addr as int) == dt_block_id() || id_at(m, addr as int) == dv_block_id()
    &&& 24 <= u64_at(b, 8) <= b.len()
}

/// `a` followed by the chain `c`, if there is one.
pub open spec fn then_chain(a: Seq<u64>, c: Option<Seq<u64>>) -> Option<Seq<u64>> {
    match c {
        Some(s) => Some(a + s),
        None => None,
    }
}

/// Whether the chain starting at `start` ends within the image's length
/// in blocks and lists only well-formed data blocks.
pub open spec fn chain_ok(m: Seq<u8>, start: u64) -> bool {
    match data_chain(m, start, m.len()) {
        Some(addrs) => forall|i: int| 0 <= i < addrs.len() ==> data_block_at(m, #[trigger] addrs[i]),
        None => false,
    }
}

proof fn lemma_chain_bad(m: Seq<u8>, start: u64, addrs: Seq<u64>, j: int)
    requires
        data_chain(m, start, m.len()) == Some(addrs),
        0 <= j < addrs.len(),
        !data_block_at(m, addrs[j]),
    ensures
        !chain_ok(m, start),
{
    if chain_ok(m, start) {
        let a = data_chain(m, start, m.len())->0;
        assert(a == addrs);
        assert(data_block_at(m, a[j]));
    }
}

/// The kinds a data link may lead to, as an error names them:
/// `##DT / ##DV / ##DL`.
pub open spec fn data_block_kinds_text() -> Seq<char> {
    seq!['#', '#', 'D', 'T', ' ', '/', ' ', '#', '#', 'D', 'V', ' ', '/', ' ', '#', '#', 'D', 'L']
}

/// Whether a non-null link `a` leads to a block within `m` that is neither
/// a data block (`##DT`, `##DV`) nor a data list (`##DL`).
pub open spec fn unexpected_block_at(m: Seq<u8>, a: u64) -> bool {
    &&& a != 0
    &&& a + 24 <= m.len()
    &&& id_at(m, a as int) != dt_block_id()
    &&& id_at(m, a as int) != dv_block_id()
    &&& id_at(m, a as int) != dl_id()
}

impl RawDataGroup {
    /// Collects the data blocks this data group references, in the order
    /// its chain lists them, following data list blocks. Fails when the
    /// chain is broken (see [`data_chain`]; a chain that comes back to a
    /// block it passed never ends, and fails too) or a listed block is not
    /// a well-formed data block; a data link to a block that is neither a
    /// data block (`##DT`, `##DV`) nor a data list (`##DL`) fails with
    /// [`Error::BlockIDError`].
    pub fn data_blocks<'a>(&self, mmap: &'a [u8]) -> (r: Result<Vec<DataBlock<'a>>>)
        ensures
            r is Ok <==> chain_ok(mmap@, self.block.data_block_addr),
            unexpected_block_at(mmap@, self.block.data_block_addr) ==> (r matches Err(e)
                && e matches Error::BlockIDError { actual, expected } && actual@ == id_at(
                mmap@,
                self.block.data_block_addr as int,
            ) && expected@ == data_block_kinds_text()),
            r matches Ok(v) ==> data_chain(mmap@, self.block.data_block_addr, mmap@.len()) matches Some(
                addrs,
            ) && v@.len() == addrs.len() && forall|i: int|
                0 <= i < v@.len() ==> (#[trigger] v@[i]).parsed_from(from_addr(mmap@, addrs[i] as int)),
    {
        let n = mmap.len();
        let start = self.block.data_block_addr;
        let mut blocks: Vec<DataBlock<'a>> = Vec::new();
        let mut addr: u64 = start;
        let mut fuel: usize = n;
        let ghost mut acc: Seq<u64> = Seq::empty();
        let dt = "##DT";
        let dv = "##DV";
        let dl = "##DL";
        proof {
            reveal_strlit("##DT");
            reveal_strlit("##DV");
            reveal_strlit("##DL");
            assert(dt@ =~= dt_block_id());
            assert(dv@ =~= dv_block_id());
            assert(dl@ =~= dl_id());
            assert(acc + Seq::<u64>::empty() =~= acc);
        }
        let ghost bad_start = unexpected_block_at(mmap@, start);
        let ghost mut first = true;
        while addr != 0
            invariant
                n == mmap@.len(),
                start == self.block.data_block_addr,
                fuel <= n,
                bad_start == unexpected_block_at(mmap@, start),
                first ==> addr == start && fuel == n,
                !first ==> !bad_start,
                dt@ == dt_block_id(),
                dv@ == dv_block_id(),
                dl@ == dl_id(),
                data_chain(mmap@, start, n as nat) == then_chain(acc, data_chain(mmap@, addr, fuel as nat)),
                blocks@.len() == acc.len(),
                forall|i: int| 0 <= i < acc.len() ==> data_block_at(mmap@, #[trigger] acc[i]),
                forall|i: int|
                    0 <= i < blocks@.len() ==> (#[trigger] blocks@[i]).parsed_from(from_addr(mmap@, acc[i] as int)),
            decreases fuel,
        {
            if fuel == 0 {
                proof {
                    assert(data_chain(mmap@, addr, fuel as nat) is None);
                }
                return Err(Error::BlockLinkError(String::from_str("the data block chain does not end")));
            }
            if addr > n as u64 || n as u64 - addr < 24 {
                proof {
                    assert(data_chain(mmap@, addr, fuel as nat) is None);
                }
                return Err(Error::TooShortBuffer {
                    actual: n,
                    expected: if addr > usize::MAX as u64 - 24 { usize::MAX } else { (addr + 24) as usize },
                    file: "parsing/raw_data_group.rs",
                    line: 0,
                });
            }
            let offset = addr as usize;
            let rest = slice_subrange(mmap, offset, n);
            let header = match BlockHeader::from_bytes(slice_subrange(rest, 0, 24)) {
                Ok(h) => h,
                Err(e) => {
                    return Err(e);
                },
            };
            proof {
                assert(rest@ == from_addr(mmap@, addr as int));
                assert(rest@.subrange(0, 24).subrange(0, 4) =~= mmap@.subrange(addr as int, addr + 4));
                assert(rest@.subrange(0, 4) =~= mmap@.subrange(addr as int, addr + 4));
            }
            if str_eq(header.id.as_str(), dt) || str_eq(header.id.as_str(), dv) {
                proof {
                    first = false;
                }
                let block = match DataBlock::from_bytes(rest) {
                    Ok(b) => b,
                    Err(e) => {
                        proof {
                            assert(data_chain(mmap@, addr, fuel as nat) == Some(seq![addr]));
                            let addrs = acc + seq![addr];
                            assert(addrs[acc.len() as int] == addr);
                            assert(!data_block_at(mmap@, addrs[acc.len() as int]));
                            assert(data_chain(mmap@, self.block.data_block_addr, mmap@.len()) == Some(addrs));
                            lemma_chain_bad(mmap@, self.block.data_block_addr, addrs, acc.len() as int);
                        }
                        return Err(e);
                    },
                };
                blocks.push(block);
                proof {
                    assert(data_chain(mmap@, addr, fuel as nat) == Some(seq![addr]));
                    assert(then_chain(acc, Some(seq![addr])) == then_chain(acc.push(addr), data_chain(mmap@, 0, (fuel - 1) as nat)));
                    acc = acc.push(addr);
                }
                addr = 0;
                fuel = fuel - 1;
            } else if str_eq(header.id.as_str(), dl) {
                proof {
                    first = false;
                }
                let list = match DataListBlock::from_bytes(rest) {
                    Ok(l) => l,
                    Err(e) => {
                        proof {
                            assert(data_chain(mmap@, addr, fuel as nat) is None);
                        }
                        return Err(e);
                    },
                };
                let ghost chain_here = data_chain(mmap@, addr, fuel as nat);
                let ghost next_chain = data_chain(mmap@, list.next, (fuel - 1) as nat);
                proof {
                    let b = from_addr(mmap@, addr as int);
                    assert(list.header.links_nr == u64_at(b, 16));
                    assert(chain_here == then_chain(list.data_links@, next_chain));
                }
                let ghost links = list.data_links@;
                let ghost acc0 = acc;
                proof {
                    assert(acc0 + links.subrange(0, 0) =~= acc0);
                }
                let mut k: usize = 0;
                while k < list.data_links.len()
                    invariant
                        n == mmap@.len(),
                        start == self.block.data_block_addr,
                        !bad_start,
                        bad_start == unexpected_block_at(mmap@, start),
                        data_chain(mmap@, start, n as nat) == then_chain(acc0, then_chain(links, next_chain)),
                        links == list.data_links@,
                        k <= links.len(),
                        acc == acc0 + links.subrange(0, k as int),
                        blocks@.len() == acc.len(),
                        forall|i: int| 0 <= i < acc.len() ==> data_block_at(mmap@, #[trigger] acc[i]),
                        forall|i: int|
                            0 <= i < blocks@.len() ==> (#[trigger] blocks@[i]).parsed_from(from_addr(mmap@, acc[i] as int)),
                    decreases links.len() - k,
                {
                    let frag = list.data_links[k];
                    let ghost witness = acc.len() as int;
                    proof {
                        if next_chain is Some {
                            let r2 = next_chain->0;
                            let addrs = acc0 + (links + r2);
                            assert(addrs[witness] == frag);
                            assert(data_chain(mmap@, self.block.data_block_addr, mmap@.len()) == Some(addrs));
                        }
                    }
                    if frag > n as u64 {
                        proof {
                            if next_chain is Some {
                                let addrs = acc0 + (links + next_chain->0);
                                assert(!data_block_at(mmap@, addrs[witness]));
                                lemma_chain_bad(mmap@, self.block.data_block_addr, addrs, witness);
                            }
                        }
                        return Err(Error::TooShortBuffer {
                            actual: n,
                            expected: #[verifier::truncate] (frag as usize),
                            file: "parsing/raw_data_group.rs",
                            line: 0,
                        });
                    }
                    let fb = slice_subrange(mmap, frag as usize, n);
                    proof {
                        if fb@.len() >= 24 {
                            assert(fb@.subrange(0, 4) =~= mmap@.subrange(frag as int, frag + 4));
                        }
                        assert(fb@ == from_addr(mmap@, frag as int));
                    }
                    let block = match DataBlock::from_bytes(fb) {
                        Ok(b) => b,
                        Err(e) => {
                            proof {
                                assert(!data_block_at(mmap@, frag));
                                if next_chain is Some {
                                    let addrs = acc0 + (links + next_chain->0);
                                    assert(!data_block_at(mmap@, addrs[witness]));
                                    lemma_chain_bad(mmap@, self.block.data_block_addr, addrs, witness);
                                }
                            }
                            return Err(e);
                        },
                    };
                    blocks.push(block);
                    proof {
                        assert(links.subrange(0, k + 1) =~= links.subrange(0, k as int).push(frag));
                        acc = acc.push(frag);
                    }
                    k = k + 1;
                }
                proof {
                    assert(links.subrange(0, links.len() as int) =~= links);
                    let b = from_addr(mmap@, addr as int);
                    assert(list.header.links_nr == u64_at(b, 16));
                    match data_chain(mmap@, list.next, (fuel - 1) as nat) {
                        Some(r2) => {
                            assert(acc0 + (links + r2) =~= (acc0 + links) + r2);
                        },
                        None => {},
                    }
                }
                addr = list.next;
                fuel = fuel - 1;
            } else {
                proof {
                    assert(data_chain(mmap@, addr, fuel as nat) is None);
                }
                let expected = String::from_str("##DT / ##DV / ##DL");
                proof {
                    reveal_strlit("##DT / ##DV / ##DL");
                    assert(expected@ =~= data_block_kinds_text());
                }
                return Err(Error::BlockIDError { actual: header.id.clone(), expected });
            }
        }
        proof {
            assert(acc + Seq::<u64>::empty() =~= acc);
        }
        Ok(blocks)
    }
}

} // verus!
