//! Resolving what a conversion block references: the formula text of an
//! algebraic conversion, the texts of text-based conversions and nested
//! conversion blocks, so that the block can be used on its own.
use crate::blocks::common::{u64_at, BlockHeader, BlockParse};
use crate::blocks::conversion::{
    cc_data_start, cc_id, cc_parsed_len, cc_ref_links, conversion_type_of_code, ConversionBlock, ConversionType,
};
use crate::blocks::text_block::{block_text, md_id, read_string_block, text_data_end, tx_id, u64_at_8};
use crate::error::{Error, Result};
use crate::text::{lossy_utf8, str_eq};
use vstd::prelude::*;
use vstd::slice::slice_subrange;

verus! {

/// The identifier of the block at `a` of the image `m`.
pub open spec fn id_of_block(m: Seq<u8>, a: u64) -> Seq<char> {
    lossy_utf8(m.subrange(a as int, a + 4))
}

/// The bytes of `m` from `a` on.
pub open spec fn tail_from(m: Seq<u8>, a: u64) -> Seq<u8> {
    m.subrange(a as int, m.len() as int)
}

/// Whether a reference is followed: it is not null and its block header
/// lies within the image.
pub open spec fn followed(m: Seq<u8>, a: u64) -> bool {
    a != 0 && a + 24 <= m.len()
}

/// Whether `c` is an algebraic conversion whose first reference is
/// followed to a text or metadata block that runs past the image `m`.
pub open spec fn formula_block_cut(m: Seq<u8>, c: &ConversionBlock) -> bool {
    &&& c.cc_type == ConversionType::Algebraic
    &&& c.cc_ref@.len() > 0
    &&& followed(m, c.cc_ref@[0])
    &&& (id_of_block(m, c.cc_ref@[0]) == tx_id() || id_of_block(m, c.cc_ref@[0]) == md_id())
    &&& tail_from(m, c.cc_ref@[0]).len() < text_data_end(u64_at_8(tail_from(m, c.cc_ref@[0])))
}

/// The formula text that the image `m` gives the algebraic conversion `c`:
/// the text of the text or metadata block its first reference leads to,
/// when that block lies within the image.
pub open spec fn algebraic_formula(m: Seq<u8>, c: &ConversionBlock) -> Option<Seq<char>> {
    if c.cc_type == ConversionType::Algebraic && c.cc_ref@.len() > 0 && followed(m, c.cc_ref@[0])
        && (id_of_block(m, c.cc_ref@[0]) == tx_id() || id_of_block(m, c.cc_ref@[0]) == md_id())
        && !formula_block_cut(m, c) {
        Some(block_text(tail_from(m, c.cc_ref@[0])))
    } else {
        None
    }
}

/// The reference of a range-to-text conversion that holds its default
/// conversion: the last one, when there are more than two.
pub open spec fn default_ref_index(t: ConversionType, n: int) -> Option<int> {
    if t == ConversionType::RangeToText && n > 2 {
        Some(n - 1)
    } else {
        None
    }
}

/// The texts of the references among the first `n` that are followed to
/// text blocks, with their indices.
pub open spec fn text_refs(m: Seq<u8>, refs: Seq<u64>, n: int) -> Seq<(int, Seq<char>)>
    decreases n,
{
    if n <= 0 || n > refs.len() {
        Seq::empty()
    } else {
        let prev = text_refs(m, refs, n - 1);
        let a = refs[n - 1];
        if followed(m, a) && id_of_block(m, a) == tx_id() {
            prev.push((n - 1, block_text(tail_from(m, a))))
        } else {
            prev
        }
    }
}

/// The indices of the references among the first `n` that are followed
/// to conversion blocks, except `skip`.
pub open spec fn conversion_refs(m: Seq<u8>, refs: Seq<u64>, n: int, skip: Option<int>) -> Seq<int>
    decreases n,
{
    if n <= 0 || n > refs.len() {
        Seq::empty()
    } else {
        let prev = conversion_refs(m, refs, n - 1, skip);
        let a = refs[n - 1];
        if followed(m, a) && id_of_block(m, a) == cc_id() && skip != Some(n - 1) {
            prev.push(n - 1)
        } else {
            prev
        }
    }
}

/// Whether a conversion of type `t` with references `refs` is algebraic
/// and its first reference is followed to a text or metadata block that
/// runs past the image `m` (see [`formula_block_cut`]).
pub open spec fn formula_cut(m: Seq<u8>, t: ConversionType, refs: Seq<u64>) -> bool {
    &&& t == ConversionType::Algebraic
    &&& refs.len() > 0
    &&& followed(m, refs[0])
    &&& (id_of_block(m, refs[0]) == tx_id() || id_of_block(m, refs[0]) == md_id())
    &&& tail_from(m, refs[0]).len() < text_data_end(u64_at_8(tail_from(m, refs[0])))
}

/// The conversion type stored in the conversion block bytes `b`.
pub open spec fn cc_type_at(b: Seq<u8>) -> ConversionType {
    conversion_type_of_code(b[cc_data_start(b)])
}

/// The references stored in the conversion block bytes `b`.
pub open spec fn cc_refs_at(b: Seq<u8>) -> Seq<u64> {
    Seq::new(cc_ref_links(b) as nat, |k: int| u64_at(b, 56 + 8 * k))
}

/// Whether resolving a conversion of type `t` with references `refs`,
/// lying at `cur`, `depth` levels deep, while the conversions at
/// `visited` are being resolved, fails: its formula block runs past the
/// image `m`, or one of its references fails (see [`refs_fail`]). Each
/// nested level lies at an address within the image that no level above
/// it uses, so conversions of any depth are resolved; a chain deeper than
/// the image has bytes, which only a cycle could make, fails.
pub open spec fn resolution_fails(
    m: Seq<u8>,
    t: ConversionType,
    refs: Seq<u64>,
    depth: int,
    visited: Set<u64>,
    cur: u64,
) -> bool
    decreases m.len() - depth, refs.len() + 1,
{
    if depth >= m.len() {
        true
    } else {
        formula_cut(m, t, refs) || refs_fail(m, refs, refs.len() as int, depth, visited.insert(cur))
    }
}

/// Whether one of the first `n` references `refs` of a conversion
/// `depth` levels deep fails, the conversions at `visited` being resolved:
/// it leads back to one of them, or it is followed to a text block that
/// runs past the image `m`, or to a conversion block that does or whose
/// resolution fails.
pub open spec fn refs_fail(m: Seq<u8>, refs: Seq<u64>, n: int, depth: int, visited: Set<u64>) -> bool
    decreases m.len() - depth, n,
{
    if n <= 0 || n > refs.len() || depth >= m.len() {
        false
    } else {
        let a = refs[n - 1];
        let b = tail_from(m, a);
        refs_fail(m, refs, n - 1, depth, visited) || (a != 0 && (visited.contains(a) || (followed(m, a) && (
        (id_of_block(m, a) == tx_id() && b.len() < text_data_end(u64_at_8(b))) || (id_of_block(m, a) == cc_id() && (
        b.len() < cc_parsed_len(b) || resolution_fails(m, cc_type_at(b), cc_refs_at(b), depth + 1, visited, a)))))))
    }
}

/// The address at which resolving a conversion of type `t` with
/// references `refs`, lying at `cur`, `depth` levels deep, the
/// conversions at `visited` being resolved, first meets a cycle: the
/// references are followed in order, nested conversions first, and the
/// first reference on the way that leads back to a conversion being
/// resolved, before any other failure, is the one reported. `None` when
/// another failure comes first or nothing fails.
pub open spec fn cycle_found(
    m: Seq<u8>,
    t: ConversionType,
    refs: Seq<u64>,
    depth: int,
    visited: Set<u64>,
    cur: u64,
) -> Option<u64>
    decreases m.len() - depth, refs.len() + 1,
{
    if depth >= m.len() || formula_cut(m, t, refs) {
        None
    } else {
        refs_cycle(m, refs, refs.len() as int, depth, visited.insert(cur))
    }
}

/// Among the first `n` references `refs` of a conversion `depth` levels
/// deep, the conversions at `visited` being resolved: the address at
/// which the first failure is a cycle (see [`cycle_found`]).
pub open spec fn refs_cycle(m: Seq<u8>, refs: Seq<u64>, n: int, depth: int, visited: Set<u64>) -> Option<u64>
    decreases m.len() - depth, n,
{
    if n <= 0 || n > refs.len() || depth >= m.len() {
        None
    } else if refs_fail(m, refs, n - 1, depth, visited) {
        refs_cycle(m, refs, n - 1, depth, visited)
    } else {
        let a = refs[n - 1];
        let b = tail_from(m, a);
        if a != 0 && visited.contains(a) {
            Some(a)
        } else if a != 0 && followed(m, a) && id_of_block(m, a) == cc_id() && b.len() >= cc_parsed_len(b) {
            cycle_found(m, cc_type_at(b), cc_refs_at(b), depth + 1, visited, a)
        } else {
            None
        }
    }
}

/// A cycle is a failure.
proof fn lemma_cycle_fails(m: Seq<u8>, t: ConversionType, refs: Seq<u64>, depth: int, visited: Set<u64>, cur: u64)
    requires
        cycle_found(m, t, refs, depth, visited, cur) is Some,
    ensures
        resolution_fails(m, t, refs, depth, visited, cur),
    decreases m.len() - depth, refs.len() + 1,
{
    if depth < m.len() && !formula_cut(m, t, refs) {
        lemma_refs_cycle_fails(m, refs, refs.len() as int, depth, visited.insert(cur));
    }
}

/// A cycle among the first `n` references is a failure among them.
proof fn lemma_refs_cycle_fails(m: Seq<u8>, refs: Seq<u64>, n: int, depth: int, visited: Set<u64>)
    requires
        refs_cycle(m, refs, n, depth, visited) is Some,
    ensures
        refs_fail(m, refs, n, depth, visited),
    decreases m.len() - depth, n,
{
    if n <= 0 || n > refs.len() || depth >= m.len() {
    } else if refs_fail(m, refs, n - 1, depth, visited) {
    } else {
        let a = refs[n - 1];
        let b = tail_from(m, a);
        if a != 0 && visited.contains(a) {
        } else {
            lemma_cycle_fails(m, cc_type_at(b), cc_refs_at(b), depth + 1, visited, a);
        }
    }
}

/// Once the first `k` references hold a failure, later references change
/// nothing of the first cycle.
proof fn lemma_refs_cycle_settled(m: Seq<u8>, refs: Seq<u64>, k: int, n: int, depth: int, visited: Set<u64>)
    requires
        0 <= k <= n <= refs.len(),
        refs_fail(m, refs, k, depth, visited),
    ensures
        refs_cycle(m, refs, n, depth, visited) == refs_cycle(m, refs, k, depth, visited),
    decreases n - k,
{
    if k < n {
        lemma_refs_fail_grows(m, refs, k, n - 1, depth, visited);
        lemma_refs_cycle_settled(m, refs, k, n - 1, depth, visited);
    }
}

/// A failing reference among the first `a` is one among the first `b`.
proof fn lemma_refs_fail_grows(m: Seq<u8>, refs: Seq<u64>, a: int, b: int, depth: int, visited: Set<u64>)
    requires
        0 <= a <= b <= refs.len(),
        refs_fail(m, refs, a, depth, visited),
    ensures
        refs_fail(m, refs, b, depth, visited),
    decreases b - a,
{
    if a < b {
        lemma_refs_fail_grows(m, refs, a, b - 1, depth, visited);
    }
}

impl ConversionBlock {
    /// Whether the two blocks agree on every field stored in the block's
    /// bytes.
    pub open spec fn same_fields(&self, o: &Self) -> bool {
        &&& self.header == o.header
        &&& self.cc_tx_name == o.cc_tx_name
        &&& self.cc_md_unit == o.cc_md_unit
        &&& self.cc_md_comment == o.cc_md_comment
        &&& self.cc_cc_inverse == o.cc_cc_inverse
        &&& self.cc_ref@ == o.cc_ref@
        &&& self.cc_type == o.cc_type
        &&& self.cc_precision == o.cc_precision
        &&& self.cc_flags == o.cc_flags
        &&& self.cc_ref_count == o.cc_ref_count
        &&& self.cc_val_count == o.cc_val_count
        &&& self.cc_phy_range_min == o.cc_phy_range_min
        &&& self.cc_phy_range_max == o.cc_phy_range_max
        &&& self.cc_val@ == o.cc_val@
    }

    /// What resolving the references of `o` at one level gives `self`:
    /// the same stored fields; the formula text of an algebraic
    /// conversion; the texts of the references to text blocks, when there
    /// are any; the nested conversions read from the references to
    /// conversion blocks, when there are any; and the default conversion
    /// of a range-to-text table. What has nothing to resolve keeps its
    /// value.
    pub open spec fn resolved_from(&self, o: &Self, m: Seq<u8>) -> bool {
        let refs = o.cc_ref@;
        let texts = text_refs(m, refs, refs.len() as int);
        let d = default_ref_index(o.cc_type, refs.len() as int);
        let convs = conversion_refs(m, refs, refs.len() as int, d);
        &&& self.same_fields(o)
        &&& if o.cc_type == ConversionType::Algebraic && refs.len() > 0 && followed(m, refs[0]) {
            let id = id_of_block(m, refs[0]);
            if id == tx_id() || id == md_id() {
                self.formula matches Some(f) && f@ == block_text(tail_from(m, refs[0]))
            } else {
                self.formula is None
            }
        } else {
            self.formula == o.formula
        }
        &&& if texts.len() > 0 {
            self.resolved_texts matches Some(v) && v@.len() == texts.len() && forall|k: int|
                0 <= k < texts.len() ==> (#[trigger] v@[k]).0 == texts[k].0 && v@[k].1@ == texts[k].1
        } else {
            self.resolved_texts == o.resolved_texts
        }
        &&& if convs.len() > 0 {
            self.resolved_conversions matches Some(v) && v@.len() == convs.len() && forall|k: int|
                0 <= k < convs.len() ==> (#[trigger] v@[k]).0 == convs[k] && v@[k].1.fields_parsed_from(
                    tail_from(m, refs[convs[k]]),
                )
        } else {
            self.resolved_conversions == o.resolved_conversions
        }
        &&& match d {
            Some(i) => if followed(m, refs[i]) && id_of_block(m, refs[i]) == cc_id() {
                self.default_conversion matches Some(c) && c.fields_parsed_from(tail_from(m, refs[i]))
            } else {
                self.default_conversion == o.default_conversion
            },
            None => self.default_conversion == o.default_conversion,
        }
    }

    /// Resolves what this conversion references in the file image
    /// `file_data` (see [`ConversionBlock::resolved_from`]), nested
    /// conversions included; the block is taken to lie at address 0. Fails
    /// exactly when [`resolution_fails`] says so.
    pub fn resolve_all_dependencies(&mut self, file_data: &[u8]) -> (r: Result<()>)
        ensures
            r is Err <==> resolution_fails(file_data@, old(self).cc_type, old(self).cc_ref@, 0, Set::empty(), 0),
            cycle_found(file_data@, old(self).cc_type, old(self).cc_ref@, 0, Set::empty(), 0) matches Some(a)
                ==> r == Err::<(), Error>(Error::ConversionChainCycle { address: a }),
            r is Ok ==> final(self).resolved_from(old(self), file_data@),
    {
        self.resolve_all_dependencies_with_address(file_data, 0)
    }

    /// Resolves what this conversion, lying at `current_address`,
    /// references. A reference back to a conversion being resolved fails
    /// with [`Error::ConversionChainCycle`]; it fails exactly when
    /// [`resolution_fails`] says so.
    pub fn resolve_all_dependencies_with_address(&mut self, file_data: &[u8], current_address: u64) -> (r: Result<()>)
        ensures
            r is Err <==> resolution_fails(
                file_data@,
                old(self).cc_type,
                old(self).cc_ref@,
                0,
                Set::empty(),
                current_address,
            ),
            cycle_found(file_data@, old(self).cc_type, old(self).cc_ref@, 0, Set::empty(), current_address) matches Some(
                a,
            ) ==> r == Err::<(), Error>(Error::ConversionChainCycle { address: a }),
            r is Ok ==> final(self).resolved_from(old(self), file_data@),
    {
        let mut visited: Vec<u64> = Vec::new();
        proof {
            assert(visited@.to_set() =~= Set::<u64>::empty());
        }
        self.resolve_all_dependencies_recursive(file_data, 0, &mut visited, current_address)
    }

    /// Reads the formula of an algebraic conversion from its first
    /// reference. Fails, leaving the block as it was, when that reference
    /// leads to a text or metadata block that runs past the image.
    pub(crate) fn resolve_formula(&mut self, file_data: &[u8]) -> (r: Result<()>)
        ensures
            r is Err <==> formula_block_cut(file_data@, old(self)),
            r is Err ==> *final(self) == *old(self),
            final(self).same_fields(old(self)),
            final(self).resolved_texts == old(self).resolved_texts,
            final(self).resolved_conversions == old(self).resolved_conversions,
            final(self).default_conversion == old(self).default_conversion,
            r is Ok ==> if old(self).cc_type == ConversionType::Algebraic && old(self).cc_ref@.len() > 0
                && followed(file_data@, old(self).cc_ref@[0]) {
                let a = old(self).cc_ref@[0];
                let id = id_of_block(file_data@, a);
                if id == tx_id() || id == md_id() {
                    final(self).formula matches Some(f) && f@ == block_text(tail_from(file_data@, a))
                } else {
                    final(self).formula is None
                }
            } else {
                final(self).formula == old(self).formula
            },
    {
        if self.cc_type != ConversionType::Algebraic || self.cc_ref.len() == 0 {
            return Ok(());
        }
        let a = self.cc_ref[0];
        let n = file_data.len();
        if a == 0 || a > n as u64 || (n as u64) - a < 24 {
            return Ok(());
        }
        proof {
            assert(file_data@.subrange(a as int, file_data@.len() as int).subrange(0, 4)
                =~= file_data@.subrange(a as int, a + 4));
        }
        match read_string_block(file_data, a) {
            Ok(t) => {
                self.formula = t;
                Ok(())
            },
            Err(e) => Err(e),
        }
    }

    /// Resolves the references of this conversion, lying at
    /// `current_address`, and of the conversions it references, to any
    /// depth; `visited` holds the addresses of the conversions being
    /// resolved.
    fn resolve_all_dependencies_recursive(
        &mut self,
        file_data: &[u8],
        depth: usize,
        visited: &mut Vec<u64>,
        current_address: u64,
    ) -> (r: Result<()>)
        requires
            !old(visited)@.contains(current_address),
        ensures
            depth >= file_data@.len() ==> (r matches Err(e) && e == (Error::ConversionChainTooDeep {
                max_depth: file_data@.len() as usize,
            }) && *final(self) == *old(self)),
            r is Err <==> resolution_fails(
                file_data@,
                old(self).cc_type,
                old(self).cc_ref@,
                depth as int,
                old(visited)@.to_set(),
                current_address,
            ),
            r is Ok ==> final(visited)@.to_set() == old(visited)@.to_set(),
            cycle_found(
                file_data@,
                old(self).cc_type,
                old(self).cc_ref@,
                depth as int,
                old(visited)@.to_set(),
                current_address,
            ) matches Some(a) ==> r == Err::<(), Error>(Error::ConversionChainCycle { address: a }),
            r is Ok ==> final(self).resolved_from(old(self), file_data@),
        decreases file_data@.len() - depth,
    {
        if depth >= file_data.len() {
            return Err(Error::ConversionChainTooDeep { max_depth: file_data.len() });
        }
        let ghost s0 = *self;
        let ghost v0 = visited@.to_set();
        let ghost vset = v0.insert(current_address);
        insert_address(visited, current_address);
        proof {
            assert(visited@.to_set() =~= vset);
        }
        match self.resolve_formula(file_data) {
            Ok(()) => {},
            Err(e) => {
                proof {
                    assert(formula_cut(file_data@, s0.cc_type, s0.cc_ref@));
                }
                return Err(e);
            },
        }
        let ghost s1 = *self;
        let n = file_data.len();
        let refs_len = self.cc_ref.len();
        let default_index: Option<usize> = if self.cc_type == ConversionType::RangeToText && refs_len > 2 {
            Some(refs_len - 1)
        } else {
            None
        };
        let ghost refs = s0.cc_ref@;
        let ghost d = default_ref_index(s0.cc_type, refs.len() as int);
        let mut texts: Vec<(usize, String)> = Vec::new();
        let mut convs: Vec<(usize, Box<ConversionBlock>)> = Vec::new();
        let mut default_conversion: Option<Box<ConversionBlock>> = None;
        let tx = "##TX";
        let cc = "##CC";
        proof {
            reveal_strlit("##TX");
            reveal_strlit("##CC");
            assert(tx@ =~= tx_id());
            assert(cc@ =~= cc_id());
        }
        let mut i: usize = 0;
        while i < refs_len
            invariant
                n == file_data@.len(),
                refs_len == refs.len(),
                self.cc_ref@ == refs,
                self.same_fields(&s1),
                *self == s1,
                tx@ == tx_id(),
                cc@ == cc_id(),
                depth < file_data@.len(),
                default_index matches Some(k) ==> d == Some(k as int),
                default_index is None ==> d is None,
                i <= refs_len,
                texts@.len() == text_refs(file_data@, refs, i as int).len(),
                forall|k: int|
                    0 <= k < texts@.len() ==> (#[trigger] texts@[k]).0 == text_refs(file_data@, refs, i as int)[k].0
                        && texts@[k].1@ == text_refs(file_data@, refs, i as int)[k].1,
                convs@.len() == conversion_refs(file_data@, refs, i as int, d).len(),
                forall|k: int|
                    0 <= k < convs@.len() ==> (#[trigger] convs@[k]).0 == conversion_refs(file_data@, refs, i as int, d)[k]
                        && convs@[k].1.fields_parsed_from(
                        tail_from(file_data@, refs[conversion_refs(file_data@, refs, i as int, d)[k]]),
                    ),
                match d {
                    Some(j) => if j < i && followed(file_data@, refs[j]) && id_of_block(file_data@, refs[j]) == cc_id() {
                        default_conversion matches Some(c) && c.fields_parsed_from(tail_from(file_data@, refs[j]))
                    } else {
                        default_conversion is None
                    },
                    None => default_conversion is None,
                },
                vset == v0.insert(current_address),
                v0 == old(visited)@.to_set(),
                !v0.contains(current_address),
                s0 == *old(self),
                refs == s0.cc_ref@,
                visited@.to_set() == vset,
                !refs_fail(file_data@, refs, i as int, depth as int, vset),
                !formula_cut(file_data@, s0.cc_type, refs),
            decreases refs_len - i,
        {
            let link = self.cc_ref[i];
            let ghost fails_here = refs_fail(file_data@, refs, i + 1, depth as int, vset);
            proof {
                assert(refs[i as int] == link);
            }
            proof {
                assert(text_refs(file_data@, refs, i + 1) == if followed(file_data@, link) && id_of_block(file_data@, link) == tx_id() {
                    text_refs(file_data@, refs, i as int).push((i as int, block_text(tail_from(file_data@, link))))
                } else {
                    text_refs(file_data@, refs, i as int)
                });
            }
            if link != 0 {
                if contains_address(visited, link) {
                    proof {
                        assert(vset.contains(link));
                        assert(fails_here);
                        lemma_refs_fail_grows(file_data@, refs, i + 1, refs.len() as int, depth as int, vset);
                        lemma_refs_cycle_settled(file_data@, refs, i + 1, refs.len() as int, depth as int, vset);
                    }
                    return Err(Error::ConversionChainCycle { address: link });
                }
                proof {
                    assert(!vset.contains(link));
                }
                if link <= n as u64 && (n as u64) - link >= 24 {
                    let offset = link as usize;
                    let rest = slice_subrange(file_data, offset, n);
                    let header = match BlockHeader::from_bytes(slice_subrange(rest, 0, 24)) {
                        Ok(h) => h,
                        Err(e) => {
                            return Err(e);
                        },
                    };
                    proof {
                        assert(rest@ == tail_from(file_data@, link));
                        assert(rest@.subrange(0, 24).subrange(0, 4) =~= file_data@.subrange(link as int, link + 4));
                        assert(rest@.subrange(0, 4) =~= file_data@.subrange(link as int, link + 4));
                    }
                    if str_eq(header.id.as_str(), tx) {
                        match read_string_block(file_data, link) {
                            Ok(Some(t)) => {
                                texts.push((i, t));
                            },
                            Ok(None) => {},
                            Err(e) => {
                                proof {
                                    assert(fails_here);
                                    lemma_refs_fail_grows(file_data@, refs, i + 1, refs.len() as int, depth as int, vset);
                        lemma_refs_cycle_settled(file_data@, refs, i + 1, refs.len() as int, depth as int, vset);
                                }
                                return Err(e);
                            },
                        }
                    } else if str_eq(header.id.as_str(), cc) {
                        let mut nested = match ConversionBlock::from_bytes(rest) {
                            Ok(c) => c,
                            Err(e) => {
                                proof {
                                    assert(fails_here);
                                    lemma_refs_fail_grows(file_data@, refs, i + 1, refs.len() as int, depth as int, vset);
                        lemma_refs_cycle_settled(file_data@, refs, i + 1, refs.len() as int, depth as int, vset);
                                }
                                return Err(e);
                            },
                        };
                        proof {
                            assert(nested.cc_type == cc_type_at(rest@));
                            assert(nested.cc_ref@ =~= cc_refs_at(rest@));
                        }
                        match nested.resolve_all_dependencies_recursive(file_data, depth + 1, visited, link) {
                            Ok(()) => {},
                            Err(e) => {
                                proof {
                                    assert(fails_here);
                                    lemma_refs_fail_grows(file_data@, refs, i + 1, refs.len() as int, depth as int, vset);
                        lemma_refs_cycle_settled(file_data@, refs, i + 1, refs.len() as int, depth as int, vset);
                                }
                                return Err(e);
                            },
                        }
                        let is_default = match default_index {
                            Some(k) => k == i,
                            None => false,
                        };
                        if is_default {
                            default_conversion = Some(Box::new(nested));
                        } else {
                            convs.push((i, Box::new(nested)));
                        }
                    }
                }
            }
            proof {
                assert(!fails_here);
            }
            i = i + 1;
        }
        if texts.len() > 0 {
            self.resolved_texts = Some(texts);
        }
        if convs.len() > 0 {
            self.resolved_conversions = Some(convs);
        }
        if default_conversion.is_some() {
            self.default_conversion = default_conversion;
        }
        let ghost pre = visited@;
        remove_address(visited, current_address);
        proof {
            assert forall|x: u64| #[trigger] visited@.to_set().contains(x) == v0.contains(x) by {
                assert(visited@.to_set().contains(x) == visited@.contains(x));
                assert(pre.to_set().contains(x) == pre.contains(x));
            }
            assert(visited@.to_set() =~= v0);
            assert(i == refs.len());
            if refs_cycle(file_data@, refs, refs.len() as int, depth as int, vset) is Some {
                lemma_refs_cycle_fails(file_data@, refs, refs.len() as int, depth as int, vset);
            }
        }
        Ok(())
    }
}

/// Whether `v` holds `a`.
fn contains_address(v: &Vec<u64>, a: u64) -> (r: bool)
    ensures
        r == v@.contains(a),
{
    let mut i: usize = 0;
    while i < v.len()
        invariant
            i <= v@.len(),
            forall|k: int| 0 <= k < i ==> v@[k] != a,
        decreases v@.len() - i,
    {
        if v[i] == a {
            return true;
        }
        i = i + 1;
    }
    false
}

/// Adds `a` to the set of addresses `v`.
fn insert_address(v: &mut Vec<u64>, a: u64)
    ensures
        forall|x: u64| #[trigger] final(v)@.contains(x) <==> old(v)@.contains(x) || x == a,
{
    if !contains_address(v, a) {
        let ghost s = v@;
        v.push(a);
        proof {
            assert forall|x: u64| #[trigger] v@.contains(x) <==> s.contains(x) || x == a by {
                if s.contains(x) {
                    let k = choose|k: int| 0 <= k < s.len() && s[k] == x;
                    assert(v@[k] == x);
                }
                if x == a {
                    assert(v@[s.len() as int] == a);
                }
                if v@.contains(x) && x != a {
                    let k = choose|k: int| 0 <= k < v@.len() && v@[k] == x;
                    assert(s[k] == x);
                }
            }
        }
    }
}

/// Removes `a` from the set of addresses `v`.
fn remove_address(v: &mut Vec<u64>, a: u64)
    ensures
        forall|x: u64| #[trigger] final(v)@.contains(x) <==> old(v)@.contains(x) && x != a,
{
    let mut kept: Vec<u64> = Vec::new();
    let mut i: usize = 0;
    while i < v.len()
        invariant
            i <= v@.len(),
            v@ == old(v)@,
            forall|x: u64| #[trigger] kept@.contains(x) <==> v@.subrange(0, i as int).contains(x) && x != a,
        decreases v@.len() - i,
    {
        let x = v[i];
        let ghost before = kept@;
        if x != a {
            kept.push(x);
        }
        proof {
            let p = v@.subrange(0, i + 1);
            assert(p =~= v@.subrange(0, i as int).push(x));
            assert forall|y: u64| #[trigger] kept@.contains(y) <==> p.contains(y) && y != a by {
                if kept@.contains(y) {
                    let k = choose|k: int| 0 <= k < kept@.len() && kept@[k] == y;
                    if k < before.len() {
                        assert(before[k] == y);
                        assert(before.contains(y));
                        assert(v@.subrange(0, i as int).contains(y));
                        let j = choose|j: int| 0 <= j < i && v@.subrange(0, i as int)[j] == y;
                        assert(p[j] == y);
                    } else {
                        assert(p[i as int] == y);
                    }
                }
                if p.contains(y) && y != a {
                    let j = choose|j: int| 0 <= j < p.len() && p[j] == y;
                    if j < i {
                        assert(v@.subrange(0, i as int)[j] == y);
                        assert(v@.subrange(0, i as int).contains(y));
                        assert(before.contains(y));
                        let k = choose|k: int| 0 <= k < before.len() && before[k] == y;
                        assert(kept@[k] == y);
                    } else {
                        assert(kept@[kept@.len() - 1] == y);
                    }
                }
            }
        }
        i = i + 1;
    }
    proof {
        assert(v@.subrange(0, i as int) =~= v@);
    }
    *v = kept;
}

/// Whether `j` is the first position of `v` whose entry has the index `k`.
pub open spec fn first_entry<T>(v: Seq<(usize, T)>, k: usize, j: int) -> bool {
    &&& 0 <= j < v.len()
    &&& v[j].0 == k
    &&& forall|i: int| 0 <= i < j ==> (#[trigger] v[i]).0 != k
}

/// Whether some entry of `v` has the index `k`.
pub open spec fn has_entry<T>(v: Seq<(usize, T)>, k: usize) -> bool {
    exists|j: int| 0 <= j < v.len() && (#[trigger] v[j]).0 == k
}

/// The position of the first entry of `v` with the index `k`.
fn find_entry<T>(v: &Vec<(usize, T)>, k: usize) -> (r: Option<usize>)
    ensures
        r is None <==> !has_entry(v@, k),
        r matches Some(j) ==> first_entry(v@, k, j as int),
{
    let mut i: usize = 0;
    while i < v.len()
        invariant
            i <= v@.len(),
            forall|j: int| 0 <= j < i ==> (#[trigger] v@[j]).0 != k,
        decreases v@.len() - i,
    {
        if v[i].0 == k {
            return Some(i);
        }
        i = i + 1;
    }
    None
}

impl ConversionBlock {
    /// The text resolved for reference `ref_index`, if any.
    pub fn get_resolved_text(&self, ref_index: usize) -> (r: Option<&String>)
        ensures
            match self.resolved_texts {
                Some(v) => match r {
                    Some(t) => exists|j: int| first_entry(v@, ref_index, j) && v@[j].1 == *t,
                    None => !has_entry(v@, ref_index),
                },
                None => r is None,
            },
    {
        match &self.resolved_texts {
            Some(v) => match find_entry(v, ref_index) {
                Some(j) => Some(&v[j].1),
                None => None,
            },
            None => None,
        }
    }

    /// The nested conversion resolved for reference `ref_index`, if any.
    pub fn get_resolved_conversion(&self, ref_index: usize) -> (r: Option<&ConversionBlock>)
        ensures
            match self.resolved_conversions {
                Some(v) => match r {
                    Some(c) => exists|j: int| first_entry(v@, ref_index, j) && *v@[j].1 == *c,
                    None => !has_entry(v@, ref_index),
                },
                None => r is None,
            },
    {
        match &self.resolved_conversions {
            Some(v) => match find_entry(v, ref_index) {
                Some(j) => Some(&*v[j].1),
                None => None,
            },
            None => None,
        }
    }

    /// The default conversion of a range-to-text table, once resolved.
    pub fn get_default_conversion(&self) -> (r: Option<&ConversionBlock>)
        ensures
            match self.default_conversion {
                Some(c) => r matches Some(d) && *d == *c,
                None => r is None,
            },
    {
        match &self.default_conversion {
            Some(c) => Some(&**c),
            None => None,
        }
    }
}

} // verus!
