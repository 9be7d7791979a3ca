//! The parse result: a tree of named blocks, each with positional
//! parameters and nested child blocks, plus the read-only query interface
//! used by consumers of a built tree.

use vstd::prelude::*;
use vstd::string::StringExecFns;

verus! {

broadcast use vstd::std_specs::vec::axiom_vec_decreases_to_view, vstd::seq::axiom_seq_index_decreases, vstd::seq::axiom_seq_subrange_decreases;

/// Mathematical model of a block: its name, its parameters in order, and
/// its children in source order.
#[verifier::ext_equal]
pub struct BlockView {
    pub name: Seq<char>,
    pub params: Seq<Seq<char>>,
    pub children: Seq<BlockView>,
}

/// A named configuration node. A leaf block (one terminated by `;` rather
/// than a brace) has no children. Every block is owned exclusively by its
/// parent; the synthetic root block has an empty name.
#[derive(Debug, PartialEq, Eq)]
pub struct ConfigBlock {
    pub name: String,
    pub params: Vec<String>,
    pub children: Vec<ConfigBlock>,
}

/// The models of a parameter list, element by element.
pub open spec fn params_view(ps: Seq<String>) -> Seq<Seq<char>> {
    ps.map_values(|p: String| p@)
}

impl View for ConfigBlock {
    type V = BlockView;

    open spec fn view(&self) -> BlockView
        decreases self,
    {
        BlockView {
            name: self.name@,
            params: params_view(self.params@),
            children: blocks_view(self.children@),
        }
    }
}

/// The models of a block sequence, element by element.
pub open spec fn blocks_view(bs: Seq<ConfigBlock>) -> Seq<BlockView>
    decreases bs,
{
    if bs.len() == 0 {
        Seq::empty()
    } else {
        seq![bs[0]@] + blocks_view(bs.skip(1))
    }
}

/// A block-sequence model has one entry per block.
pub broadcast proof fn lemma_blocks_view_len(bs: Seq<ConfigBlock>)
    ensures
        #[trigger] blocks_view(bs).len() == bs.len(),
    decreases bs.len(),
{
    if bs.len() > 0 {
        lemma_blocks_view_len(bs.skip(1));
        assert(blocks_view(bs) == seq![bs[0]@] + blocks_view(bs.skip(1)));
        assert(blocks_view(bs).len() == 1 + blocks_view(bs.skip(1)).len());
    } else {
        assert(blocks_view(bs) == Seq::<BlockView>::empty());
    }
}

/// Entry `i` of a block-sequence model is the model of block `i`.
pub broadcast proof fn lemma_blocks_view_index(bs: Seq<ConfigBlock>, i: int)
    requires
        0 <= i < bs.len(),
    ensures
        #[trigger] blocks_view(bs)[i] == bs[i]@,
    decreases bs.len(),
{
    lemma_blocks_view_len(bs);
    assert(blocks_view(bs) == seq![bs[0]@] + blocks_view(bs.skip(1)));
    if i > 0 {
        lemma_blocks_view_index(bs.skip(1), i - 1);
        lemma_blocks_view_len(bs.skip(1));
        assert(blocks_view(bs)[i] == blocks_view(bs.skip(1))[i - 1]);
        assert(bs.skip(1)[i - 1] == bs[i]);
    }
}

/// The children of `b` whose name is exactly `name`, in source order.
pub open spec fn matching_spec(b: BlockView, name: Seq<char>) -> Seq<BlockView> {
    filter_name(b.children, name)
}

/// The blocks in `cs` whose name is exactly `name`, in order.
pub open spec fn filter_name(cs: Seq<BlockView>, name: Seq<char>) -> Seq<BlockView>
    decreases cs.len(),
{
    if cs.len() == 0 {
        Seq::empty()
    } else if cs[0].name == name {
        seq![cs[0]] + filter_name(cs.skip(1), name)
    } else {
        filter_name(cs.skip(1), name)
    }
}

/// Walking a name path down the tree: at each name, the first child of the
/// current block with that name; at the last name, the first parameter of
/// the matched block. Nothing is returned if any step finds no match, if
/// the matched leaf has no parameter, or if the path is empty.
pub open spec fn path_spec(b: BlockView, names: Seq<Seq<char>>) -> Option<Seq<char>>
    decreases names.len(),
{
    if names.len() == 0 {
        None
    } else {
        let ms = matching_spec(b, names[0]);
        if ms.len() == 0 {
            None
        } else if names.len() == 1 {
            if ms[0].params.len() > 0 {
                Some(ms[0].params[0])
            } else {
                None
            }
        } else {
            path_spec(ms[0], names.skip(1))
        }
    }
}

/// The views of a list of path names, element by element.
pub open spec fn names_view(ns: Seq<&str>) -> Seq<Seq<char>> {
    ns.map_values(|s: &str| s@)
}

impl ConfigBlock {
    /// Builds a block from its parts.
    pub fn new(name: String, params: Vec<String>, children: Vec<ConfigBlock>) -> (b: ConfigBlock)
        ensures
            b@ == (BlockView {
                name: name@,
                params: params_view(params@),
                children: blocks_view(children@),
            }),
    {
        ConfigBlock { name, params, children }
    }

    /// Appends one child block.
    pub fn add_block(&mut self, block: ConfigBlock)
        ensures
            final(self)@ == (BlockView {
                children: old(self)@.children.push(block@),
                ..old(self)@
            }),
    {
        self.children.push(block);
        proof {
            broadcast use lemma_blocks_view_len, lemma_blocks_view_index;

            assert(blocks_view(old(self).children@.push(block)) =~= blocks_view(
                old(self).children@,
            ).push(block@));
            assert(self@ =~= (BlockView {
                children: old(self)@.children.push(block@),
                ..old(self)@
            }));
        }
    }

    /// The block's name; the synthetic root reports the empty string.
    pub fn name(&self) -> (r: &str)
        ensures
            r@ == self@.name,
    {
        self.name.as_str()
    }

    /// The number of parameters (not the number of children).
    pub fn len(&self) -> (r: usize)
        ensures
            r == self@.params.len(),
    {
        self.params.len()
    }

    /// The parameter at the given position. Out-of-range access is ruled
    /// out by contract: callers check `len` first.
    pub fn get(&self, index: usize) -> (r: &str)
        requires
            index < self@.params.len(),
        ensures
            r@ == self@.params[index as int],
    {
        let p: &String = &self.params[index];
        p.as_str()
    }

    /// All children named `name`, in source order.
    pub fn matching<'a>(&'a self, name: &str) -> (r: Vec<&'a ConfigBlock>)
        ensures
            r@.map_values(|b: &ConfigBlock| b@) == matching_spec(self@, name@),
    {
        proof {
            broadcast use lemma_blocks_view_len, lemma_blocks_view_index;

        }
        let nm = String::from_str(name);
        let ghost cs = self@.children;
        let mut r: Vec<&ConfigBlock> = Vec::new();
        let mut j: usize = 0;
        proof {
            assert(cs.skip(0) =~= cs);
            assert(r@.map_values(|b: &ConfigBlock| b@) =~= Seq::<BlockView>::empty());
        }
        while j < self.children.len()
            invariant
                j <= self.children.len(),
                cs == self@.children,
                cs.len() == self.children.len(),
                self@ == (BlockView {
                    name: self.name@,
                    params: params_view(self.params@),
                    children: blocks_view(self.children@),
                }),
                nm@ == name@,
                r@.map_values(|b: &ConfigBlock| b@) + filter_name(cs.skip(j as int), name@)
                    == filter_name(cs, name@),
            decreases self.children.len() - j,
        {
            proof {
                lemma_blocks_view_index(self.children@, j as int);
                assert(cs[j as int] == self.children@[j as int]@);
                assert(cs.skip(j as int)[0] == cs[j as int]);
                assert(cs.skip(j as int).skip(1) =~= cs.skip(j as int + 1));
            }
            let child: &ConfigBlock = &self.children[j];
            if child.name == nm {
                let ghost prev = r@;
                r.push(child);
                proof {
                    assert(r@.map_values(|b: &ConfigBlock| b@) =~= prev.map_values(
                        |b: &ConfigBlock| b@,
                    ).push(child@));
                    assert(r@.map_values(|b: &ConfigBlock| b@) + filter_name(
                        cs.skip(j as int + 1),
                        name@,
                    ) =~= filter_name(cs, name@));
                }
            } else {
                proof {
                    assert(filter_name(cs.skip(j as int), name@) == filter_name(
                        cs.skip(j as int + 1),
                        name@,
                    ));
                }
            }
            j = j + 1;
        }
        proof {
            assert(cs.skip(j as int) =~= Seq::<BlockView>::empty());
            assert(filter_name(Seq::empty(), name@) == Seq::<BlockView>::empty());
            assert(r@.map_values(|b: &ConfigBlock| b@) =~= filter_name(cs, name@));
        }
        r
    }

    /// The first child named `name`, if any.
    fn first_matching<'a>(&'a self, name: &str) -> (r: Option<&'a ConfigBlock>)
        ensures
            match r {
                Some(c) => matching_spec(self@, name@).len() > 0 && c@ == matching_spec(
                    self@,
                    name@,
                )[0],
                None => matching_spec(self@, name@).len() == 0,
            },
    {
        proof {
            broadcast use lemma_blocks_view_len, lemma_blocks_view_index;

        }
        let nm = String::from_str(name);
        let ghost cs = self@.children;
        let mut j: usize = 0;
        proof {
            assert(cs.skip(0) =~= cs);
        }
        while j < self.children.len()
            invariant
                j <= self.children.len(),
                cs == self@.children,
                cs.len() == self.children.len(),
                self@ == (BlockView {
                    name: self.name@,
                    params: params_view(self.params@),
                    children: blocks_view(self.children@),
                }),
                nm@ == name@,
                filter_name(cs.skip(j as int), name@) == filter_name(cs, name@),
            decreases self.children.len() - j,
        {
            proof {
                lemma_blocks_view_index(self.children@, j as int);
                assert(cs[j as int] == self.children@[j as int]@);
                assert(cs.skip(j as int)[0] == cs[j as int]);
                assert(cs.skip(j as int).skip(1) =~= cs.skip(j as int + 1));
            }
            let child: &ConfigBlock = &self.children[j];
            if child.name == nm {
                proof {
                    assert(filter_name(cs.skip(j as int), name@)[0] == cs[j as int]);
                }
                return Some(child);
            }
            proof {
                assert(filter_name(cs.skip(j as int), name@) == filter_name(
                    cs.skip(j as int + 1),
                    name@,
                ));
            }
            j = j + 1;
        }
        proof {
            assert(cs.skip(j as int) =~= Seq::<BlockView>::empty());
        }
        None
    }

    /// Walks the given name path and returns the first parameter of the
    /// block it ends at. Returns nothing — never an error — when a name
    /// along the path matches no child, when the final block has no
    /// parameter, or when the path is empty.
    pub fn path<'a>(&'a self, names: Vec<&'a str>) -> (r: Option<&'a str>)
        ensures
            match r {
                Some(s) => path_spec(self@, names_view(names@)) == Some(s@),
                None => path_spec(self@, names_view(names@)) is None,
            },
    {
        let ghost nsv = names_view(names@);
        if names.len() == 0 {
            return None;
        }
        let mut cur: &ConfigBlock = self;
        let mut k: usize = 0;
        proof {
            assert(nsv.skip(0) =~= nsv);
        }
        loop
            invariant
                k < names.len(),
                nsv == names_view(names@),
                nsv.len() == names.len(),
                path_spec(self@, nsv) == path_spec(cur@, nsv.skip(k as int)),
            decreases names.len() - k,
        {
            proof {
                assert(nsv.skip(k as int)[0] == nsv[k as int]);
                assert(nsv[k as int] == names@[k as int]@);
                assert(nsv.skip(k as int).skip(1) =~= nsv.skip(k as int + 1));
            }
            let m = cur.first_matching(names[k]);
            match m {
                None => {
                    return None;
                },
                Some(child) => {
                    if k + 1 == names.len() {
                        if child.len() > 0 {
                            return Some(child.get(0));
                        } else {
                            return None;
                        }
                    } else {
                        cur = child;
                        k = k + 1;
                    }
                },
            }
        }
    }
}

} // verus!
