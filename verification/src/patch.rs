use vstd::prelude::*;
use vstd::string::StringSliceAdditionalSpecFns;
use crate::errors::ErrorKind;
use crate::archive::{MPQ, Resolution};
use crate::tables::BlockEntry;

verus! {

/// An ordered overlay of archives, lowest priority first: a lookup tries the
/// top layer first and falls down the chain, and an explicit tombstone in a
/// higher layer hides the name from every layer below it.
pub struct PatchChain {
    pub layers: Vec<MPQ>,
}

/// Where a name resolves among layers `0..=i`, walking from layer `i` down:
/// the first live hit wins, a tombstone ends the walk as a definitive
/// absence, and a plain miss falls through.
pub open spec fn chain_find(
    layers: Seq<MPQ>,
    name: Seq<u8>,
    locale: u16,
    platform: u16,
    i: int,
) -> Option<(int, usize)>
    decreases i + 1,
{
    if i < 0 || i >= layers.len() {
        None
    } else {
        match layers[i].resolve_spec(name, locale, platform) {
            Resolution::Found(bi) => Some((i, bi)),
            Resolution::Tombstone => None,
            Resolution::Absent => chain_find(layers, name, locale, platform, i - 1),
        }
    }
}

impl PatchChain {
    /// Every layer is a consistent archive at the neutral locale.
    pub open spec fn wf(&self) -> bool {
        forall|i: int|
            0 <= i < self.layers@.len() ==> (#[trigger] self.layers@[i]).wf()
                && self.layers@[i].locale == 0
    }

    /// Where a name resolves across the whole chain.
    pub open spec fn resolve_spec(&self, name: Seq<u8>, locale: u16, platform: u16) -> Option<
        (int, usize),
    > {
        chain_find(self.layers@, name, locale, platform, self.layers@.len() - 1)
    }

    /// An empty chain.
    pub fn new() -> (r: PatchChain)
        ensures
            r.wf(),
            r.layers@.len() == 0,
    {
        PatchChain { layers: Vec::new() }
    }

    /// Add the next-higher-priority layer on top of the chain.
    pub fn push_layer(&mut self, a: MPQ)
        requires
            old(self).wf(),
            a.wf(),
            a.locale == 0,
        ensures
            final(self).wf(),
            final(self).layers@ == old(self).layers@.push(a),
    {
        self.layers.push(a);
    }

    /// Resolve a name across the chain to the block entry of the topmost
    /// layer that carries it live; a tombstone anywhere above a carrier
    /// makes the name `NotFound`.
    pub fn resolve(&self, name: &str, locale: u16, platform: u16) -> (r: Result<
        BlockEntry,
        ErrorKind,
    >)
        requires
            self.wf(),
        ensures
            match self.resolve_spec(name.spec_bytes(), locale, platform) {
                Some(t) => r == Ok::<BlockEntry, ErrorKind>(
                    self.layers@[t.0].block_table@[t.1 as int],
                ),
                None => r == Err::<BlockEntry, ErrorKind>(ErrorKind::NotFound),
            },
    {
        let n = self.layers.len();
        let mut i: usize = n;
        while i > 0
            invariant
                self.wf(),
                i <= n,
                n == self.layers@.len(),
                chain_find(self.layers@, name.spec_bytes(), locale, platform, n as int - 1)
                    == chain_find(self.layers@, name.spec_bytes(), locale, platform, i as int - 1),
            decreases i,
        {
            let li = i - 1;
            match self.layers[li].resolve_entry(name.as_bytes(), locale, platform) {
                Resolution::Found(bi) => {
                    return Ok(self.layers[li].block_table[bi]);
                },
                Resolution::Tombstone => {
                    return Err(ErrorKind::NotFound);
                },
                Resolution::Absent => {},
            }
            i = li;
        }
        Err(ErrorKind::NotFound)
    }

    /// Whether the chain carries a live file of this name: exactly when a
    /// chain resolve succeeds, so a tombstone in a patch layer makes this
    /// false even where a lower layer has the file.
    pub fn contains(&self, name: &str) -> (r: bool)
        requires
            self.wf(),
        ensures
            r == (self.resolve_spec(name.spec_bytes(), 0, 0) is Some),
    {
        match self.resolve(name, 0, 0) {
            Ok(_) => true,
            Err(_) => false,
        }
    }

    /// Stream the whole decoded contents of a named file out of the topmost
    /// layer that carries it live.
    pub fn extract(&self, name: &str) -> (r: Result<Vec<u8>, ErrorKind>)
        requires
            self.wf(),
        ensures
            (self.resolve_spec(name.spec_bytes(), 0, 0) is None) ==> r == Err::<
                Vec<u8>,
                ErrorKind,
            >(ErrorKind::NotFound),
            match self.resolve_spec(name.spec_bytes(), 0, 0) {
                Some(t) => {
                    let a = self.layers@[t.0];
                    &&& (a.is_closed_spec() ==> r == Err::<Vec<u8>, ErrorKind>(
                        ErrorKind::InvalidHandle,
                    ))
                    &&& (!a.is_closed_spec() && a.handle_ok(t.1 as int, name.spec_bytes())
                        ==> (match a.file_contents_of(t.1 as int, name.spec_bytes()) {
                        Ok(c) => (match r {
                            Ok(v) => v@ == c,
                            Err(_) => false,
                        }),
                        Err(e) => r == Err::<Vec<u8>, ErrorKind>(e),
                    }))
                    &&& (!a.is_closed_spec() && !a.handle_ok(t.1 as int, name.spec_bytes()) ==> r
                        == Err::<Vec<u8>, ErrorKind>(ErrorKind::FileCorrupt))
                },
                None => r == Err::<Vec<u8>, ErrorKind>(ErrorKind::NotFound),
            },
    {
        let n = self.layers.len();
        let mut i: usize = n;
        while i > 0
            invariant
                self.wf(),
                i <= n,
                n == self.layers@.len(),
                chain_find(self.layers@, name.spec_bytes(), 0, 0, n as int - 1) == chain_find(
                    self.layers@,
                    name.spec_bytes(),
                    0,
                    0,
                    i as int - 1,
                ),
            decreases i,
        {
            let li = i - 1;
            match self.layers[li].resolve_entry(name.as_bytes(), 0, 0) {
                Resolution::Found(_) => {
                    return self.layers[li].extract(name);
                },
                Resolution::Tombstone => {
                    return Err(ErrorKind::NotFound);
                },
                Resolution::Absent => {},
            }
            i = li;
        }
        Err(ErrorKind::NotFound)
    }
}

} // verus!
