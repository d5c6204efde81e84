//! What is left of a token sequence after its modifiers and annotations were
//! folded onto the tokens before them.

use vstd::prelude::*;
use crate::token::Token;
use crate::types::{Portion, Quantity};

verus! {

/// An ingredient with its modifiers and annotations.
#[derive(PartialEq, Eq, Debug)]
pub struct Ingredient(String, Vec<String>, Vec<String>);

/// The mathematical value of an [`Ingredient`]: its name, its modifiers and
/// its annotations, each in order.
pub struct IngredientView {
    pub name: Seq<char>,
    pub modifiers: Seq<Seq<char>>,
    pub annotations: Seq<Seq<char>>,
}

/// The texts that strings hold.
pub open spec fn text_views(texts: Seq<String>) -> Seq<Seq<char>> {
    texts.map_values(|text: String| text@)
}

impl View for Ingredient {
    type V = IngredientView;

    closed spec fn view(&self) -> IngredientView {
        IngredientView {
            name: self.0@,
            modifiers: text_views(self.1@),
            annotations: text_views(self.2@),
        }
    }
}

/// A fresh vector of the same texts.
fn copy_texts(texts: &Vec<String>) -> (r: Vec<String>)
    ensures
        text_views(r@) == text_views(texts@),
{
    let mut r: Vec<String> = Vec::new();
    let mut i: usize = 0;
    while i < texts.len()
        invariant
            i <= texts.len(),
            text_views(r@) == text_views(texts@).take(i as int),
        decreases texts.len() - i,
    {
        let text = texts[i].clone();
        r.push(text);
        proof {
            let all = text_views(texts@);
            assert(text_views(r@) =~= all.take(i as int).push(all[i as int]));
            assert(all.take(i + 1) =~= all.take(i as int).push(all[i as int]));
        }
        i += 1;
    }
    proof {
        assert(text_views(texts@).take(i as int) =~= text_views(texts@));
    }
    r
}

impl Clone for Ingredient {
    fn clone(&self) -> (r: Self)
        ensures
            r@ == self@,
    {
        Ingredient(self.0.clone(), copy_texts(&self.1), copy_texts(&self.2))
    }
}

/// A tool with its modifiers and annotations.
#[derive(Clone, PartialEq, Eq, Debug)]
pub struct Tool(String, Vec<String>, Vec<String>);

/// A container with its modifiers and annotations.
#[derive(Clone, PartialEq, Eq, Debug)]
pub struct Container(String, Vec<String>, Vec<String>);

/// An appliance with its modifiers and annotations.
#[derive(Clone, PartialEq, Eq, Debug)]
pub struct Appliance(String, Vec<String>, Vec<String>);

/// An action with its modifiers and annotations.
#[derive(Clone, PartialEq, Eq, Debug)]
pub struct Verb(String, Vec<String>, Vec<String>);

/// A combination with its modifiers and annotations.
#[derive(Clone, PartialEq, Eq, Debug)]
pub struct Combine(String, Vec<String>, Vec<String>);

/// A transfer with its modifiers and annotations.
#[derive(Clone, PartialEq, Eq, Debug)]
pub struct Transfer(String, Vec<String>, Vec<String>);

/// One ingredient, or two mixtures made one.
#[derive(PartialEq, Eq, Debug)]
pub enum Mixture {
    Ingredient(Ingredient),
    Compound(Box<Mixture>, Box<Mixture>),
}

/// The mathematical value of a [`Mixture`].
pub enum MixtureView {
    Ingredient(IngredientView),
    Compound(Box<MixtureView>, Box<MixtureView>),
}

impl View for Mixture {
    type V = MixtureView;

    closed spec fn view(&self) -> MixtureView {
        self.model()
    }
}

impl Mixture {
    /// The value of the mixture: that of its ingredient, or those of the two
    /// mixtures it was made of.
    pub closed spec fn model(&self) -> MixtureView
        decreases self,
    {
        match self {
            Mixture::Ingredient(ingredient) => MixtureView::Ingredient(ingredient@),
            Mixture::Compound(left, right) => MixtureView::Compound(
                Box::new(left.model()),
                Box::new(right.model()),
            ),
        }
    }

    /// A fresh mixture of the same ingredients, made one in the same way.
    fn copy(&self) -> (r: Mixture)
        ensures
            r@ == self@,
        decreases self,
    {
        match self {
            Mixture::Ingredient(ingredient) => Mixture::Ingredient(ingredient.clone()),
            Mixture::Compound(left, right) => Mixture::Compound(
                Box::new(left.copy()),
                Box::new(right.copy()),
            ),
        }
    }
}

impl Clone for Mixture {
    fn clone(&self) -> (r: Self)
        ensures
            r@ == self@,
    {
        self.copy()
    }
}

/// What can hold a mixture.
#[derive(Clone, PartialEq, Eq, Debug)]
pub enum Vessel {
    Container(Container),
    Appliance(Appliance),
}

/// A mixture in its vessel.
#[derive(Clone, PartialEq, Eq, Debug)]
pub struct System(Vessel, Mixture);

/// What can stand on the stack once modifiers and annotations are folded in.
pub enum Operatable {
    Ingredient(Ingredient),
    Tool(Tool),
    Container(Container),
    Appliance(Appliance),
    Verb(Verb),
    Combine(Combine),
    Transfer(Transfer),
    Measure(Quantity),
    Take(Portion),
    Leave(Portion),
    Place,
    Remove,
    Configure(String),
    Meld(String),
    Discard,
    Empty,
    TagSet(String),
    TagGet(String),
}

impl Operatable {
    /// The stack for a sequence of tokens: one entry for each token, in
    /// order. Every entry is `Place` for now, whatever its token.
    pub fn create_operatable_stack(tokens: Vec<Token>) -> (r: Vec<Operatable>)
        ensures
            r.len() == tokens.len(),
            forall|i: int| 0 <= i < r.len() ==> r[i] is Place,
    {
        let mut r: Vec<Operatable> = Vec::new();
        let mut i: usize = 0;
        while i < tokens.len()
            invariant
                i <= tokens.len(),
                r.len() == i,
                forall|j: int| 0 <= j < r.len() ==> r[j] is Place,
            decreases tokens.len() - i,
        {
            r.push(Operatable::Place);
            i += 1;
        }
        r
    }
}

/// What can stand on the stack once the operators were applied.
pub enum Concrete {
    Ingredient(Ingredient),
    Tool(Tool),
    Container(Container),
    Appliance(Appliance),
    Mixture(Mixture),
    Vessel(Vessel),
    System(System),
}

} // verus!
