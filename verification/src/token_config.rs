//! The reserved token table: a fixed, ordered set of special tokens with
//! fixed semantic roles (start/end of text, end of sentence, padding, mask,
//! unknown, and the whitespace tokens).

use vstd::prelude::*;

verus! {

/// A token string together with its index in the vocabulary.
#[derive(Debug, Clone)]
pub struct Token {
    pub value: String,
    pub index: usize,
}

/// The ordered reserved-token table. Slot order is fixed by the design;
/// the index held by each slot is whatever the training loop assigned.
#[derive(Debug, Clone)]
pub struct TokenConfig {
    pub sot: Token,
    pub eot: Token,
    pub eos: Token,
    pub pad: Token,
    pub mask: Token,
    pub unknown: Token,
    pub space: Token,
    pub newline: Token,
    pub carriage: Token,
}

/// The number of reserved slots.
pub open spec fn slot_count() -> int {
    9
}

/// The default reserved strings, in slot order.
pub open spec fn reserved_values() -> Seq<Seq<char>> {
    seq![
        "<|sot|>"@,
        "<|eot|>"@,
        "<|eos|>"@,
        "<pad>"@,
        "<mask>"@,
        "<unk>"@,
        " "@,
        "\n"@,
        "\r"@,
    ]
}

impl TokenConfig {
    /// The slot values in slot order, as character sequences.
    pub open spec fn values_view(self) -> Seq<Seq<char>> {
        seq![
            self.sot.value@,
            self.eot.value@,
            self.eos.value@,
            self.pad.value@,
            self.mask.value@,
            self.unknown.value@,
            self.space.value@,
            self.newline.value@,
            self.carriage.value@,
        ]
    }

    /// The slot indices in slot order.
    pub open spec fn indices_view(self) -> Seq<usize> {
        seq![
            self.sot.index,
            self.eot.index,
            self.eos.index,
            self.pad.index,
            self.mask.index,
            self.unknown.index,
            self.space.index,
            self.newline.index,
            self.carriage.index,
        ]
    }

    /// Whether `w` equals one of the reserved slot values.
    pub open spec fn is_reserved_view(self, w: Seq<char>) -> bool {
        exists|k: int| 0 <= k < slot_count() && self.values_view()[k] == w
    }

    /// The fresh table: default strings, indices `0..9` in slot order.
    pub fn new() -> (r: TokenConfig)
        ensures
            r.values_view() == reserved_values(),
            r.indices_view() =~= Seq::new(slot_count() as nat, |k: int| k as usize),
    {
        let r = TokenConfig {
            sot: Token { value: "<|sot|>".to_owned(), index: 0 },
            eot: Token { value: "<|eot|>".to_owned(), index: 1 },
            eos: Token { value: "<|eos|>".to_owned(), index: 2 },
            pad: Token { value: "<pad>".to_owned(), index: 3 },
            mask: Token { value: "<mask>".to_owned(), index: 4 },
            unknown: Token { value: "<unk>".to_owned(), index: 5 },
            space: Token { value: " ".to_owned(), index: 6 },
            newline: Token { value: "\n".to_owned(), index: 7 },
            carriage: Token { value: "\r".to_owned(), index: 8 },
        };
        assert(r.values_view() =~= reserved_values());
        r
    }

    /// The slot values in slot order.
    pub fn get_values(&self) -> (r: Vec<String>)
        ensures
            r@ =~= seq![
                self.sot.value,
                self.eot.value,
                self.eos.value,
                self.pad.value,
                self.mask.value,
                self.unknown.value,
                self.space.value,
                self.newline.value,
                self.carriage.value,
            ],
            r@.len() == slot_count(),
            forall|k: int| 0 <= k < slot_count() ==> r@[k]@ == self.values_view()[k],
    {
        let r = vec![
            self.sot.value.clone(),
            self.eot.value.clone(),
            self.eos.value.clone(),
            self.pad.value.clone(),
            self.mask.value.clone(),
            self.unknown.value.clone(),
            self.space.value.clone(),
            self.newline.value.clone(),
            self.carriage.value.clone(),
        ];
        assert forall|k: int| 0 <= k < slot_count() implies r@[k]@ == self.values_view()[k] by {
            assert(r@[k] == self.values_view_token(k));
        }
        r
    }

    /// Helper relating slot positions to slot values.
    pub open spec fn values_view_token(self, k: int) -> String {
        seq![
            self.sot.value,
            self.eot.value,
            self.eos.value,
            self.pad.value,
            self.mask.value,
            self.unknown.value,
            self.space.value,
            self.newline.value,
            self.carriage.value,
        ][k]
    }

    /// The slot indices in slot order.
    pub fn get_indices(&self) -> (r: Vec<usize>)
        ensures
            r@ == self.indices_view(),
    {
        let r = vec![
            self.sot.index,
            self.eot.index,
            self.eos.index,
            self.pad.index,
            self.mask.index,
            self.unknown.index,
            self.space.index,
            self.newline.index,
            self.carriage.index,
        ];
        assert(r@ =~= self.indices_view());
        r
    }

    /// Whether `token` is the end-of-sentence reserved string.
    pub fn is_eos(&self, token: &str) -> (r: bool)
        ensures
            r == (token@ == self.eos.value@),
    {
        self.eos.value.eq(&token.to_owned())
    }

    /// Whether `token` is one of the reserved slot values.
    pub fn is_special_token(&self, token: &str) -> (r: bool)
        ensures
            r == self.is_reserved_view(token@),
    {
        let t = token.to_owned();
        let r = self.sot.value.eq(&t) || self.eot.value.eq(&t) || self.eos.value.eq(&t)
            || self.pad.value.eq(&t) || self.mask.value.eq(&t) || self.unknown.value.eq(&t)
            || self.space.value.eq(&t) || self.newline.value.eq(&t) || self.carriage.value.eq(&t);
        if r {
            assert(self.is_reserved_view(token@)) by {
                if self.sot.value@ == token@ {
                    assert(self.values_view()[0] == token@);
                } else if self.eot.value@ == token@ {
                    assert(self.values_view()[1] == token@);
                } else if self.eos.value@ == token@ {
                    assert(self.values_view()[2] == token@);
                } else if self.pad.value@ == token@ {
                    assert(self.values_view()[3] == token@);
                } else if self.mask.value@ == token@ {
                    assert(self.values_view()[4] == token@);
                } else if self.unknown.value@ == token@ {
                    assert(self.values_view()[5] == token@);
                } else if self.space.value@ == token@ {
                    assert(self.values_view()[6] == token@);
                } else if self.newline.value@ == token@ {
                    assert(self.values_view()[7] == token@);
                } else {
                    assert(self.values_view()[8] == token@);
                }
            }
        }
        r
    }

    /// Assign the index for each slot, in slot order. The input must have
    /// exactly one index per slot.
    pub fn set_indices(&mut self, indices: Vec<usize>)
        requires
            indices@.len() == slot_count(),
        ensures
            final(self).values_view() == old(self).values_view(),
            final(self).indices_view() =~= indices@,
            final(self).sot.value == old(self).sot.value,
            final(self).eot.value == old(self).eot.value,
            final(self).eos.value == old(self).eos.value,
            final(self).pad.value == old(self).pad.value,
            final(self).mask.value == old(self).mask.value,
            final(self).unknown.value == old(self).unknown.value,
            final(self).space.value == old(self).space.value,
            final(self).carriage.value == old(self).carriage.value,
            final(self).newline.value == old(self).newline.value,
    {
        self.sot.index = indices[0];
        self.eot.index = indices[1];
        self.eos.index = indices[2];
        self.pad.index = indices[3];
        self.mask.index = indices[4];
        self.unknown.index = indices[5];
        self.space.index = indices[6];
        self.newline.index = indices[7];
        self.carriage.index = indices[8];
    }

    /// An owned copy whose every field equals this table's.
    pub fn duplicate(&self) -> (r: TokenConfig)
        ensures
            r == *self,
    {
        TokenConfig {
            sot: Token { value: self.sot.value.clone(), index: self.sot.index },
            eot: Token { value: self.eot.value.clone(), index: self.eot.index },
            eos: Token { value: self.eos.value.clone(), index: self.eos.index },
            pad: Token { value: self.pad.value.clone(), index: self.pad.index },
            mask: Token { value: self.mask.value.clone(), index: self.mask.index },
            unknown: Token { value: self.unknown.value.clone(), index: self.unknown.index },
            space: Token { value: self.space.value.clone(), index: self.space.index },
            newline: Token { value: self.newline.value.clone(), index: self.newline.index },
            carriage: Token { value: self.carriage.value.clone(), index: self.carriage.index },
        }
    }
}

/// The default reserved strings are pairwise distinct.
pub proof fn lemma_reserved_values_distinct()
    ensures
        forall|i: int, j: int|
            0 <= i < slot_count() && 0 <= j < slot_count() && i != j ==> reserved_values()[i]
                != reserved_values()[j],
        forall|k: int| 0 <= k < slot_count() ==> reserved_values()[k].len() >= 1,
{
    reveal_strlit("<|sot|>");
    reveal_strlit("<|eot|>");
    reveal_strlit("<|eos|>");
    reveal_strlit("<pad>");
    reveal_strlit("<mask>");
    reveal_strlit("<unk>");
    reveal_strlit(" ");
    reveal_strlit("\n");
    reveal_strlit("\r");
    assert(reserved_values()[0].len() == 7);
    assert(reserved_values()[1].len() == 7);
    assert(reserved_values()[2].len() == 7);
    assert(reserved_values()[3].len() == 5);
    assert(reserved_values()[4].len() == 6);
    assert(reserved_values()[5].len() == 5);
    assert(reserved_values()[6].len() == 1);
    assert(reserved_values()[7].len() == 1);
    assert(reserved_values()[8].len() == 1);
    assert(reserved_values()[0][2] == 's');
    assert(reserved_values()[1][2] == 'e');
    assert(reserved_values()[2][2] == 'e');
    assert(reserved_values()[1][4] == 't');
    assert(reserved_values()[2][4] == 's');
    assert(reserved_values()[3][1] == 'p');
    assert(reserved_values()[5][1] == 'u');
    assert(reserved_values()[6][0] == ' ');
    assert(reserved_values()[7][0] == '\n');
    assert(reserved_values()[8][0] == '\r');
}

} // verus!
