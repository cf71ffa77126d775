//! Factor graphs.
//!
//! A factor graph is a bipartite graphical model that decomposes a global
//! function into a collection of local functions (factors) over subsets of
//! variables.

use vstd::prelude::*;
use vstd::hash_map::StringHashMap;

use crate::factor::{distinct_vars, Factor, FactorId, FactorKind};
use crate::variable::{Variable, VariableId};

verus! {

broadcast use crate::variable::lemma_variable_id_view_injective;

/// A node representing a variable in a [`FactorGraph`].
///
/// The node stores the variable itself and the factors connected to it.
pub struct VariableNode {
    variable: Variable,
    factors: Vec<FactorId>,
}

impl VariableNode {
    /// The variable of the node.
    pub closed spec fn variable_view(&self) -> Variable {
        self.variable
    }

    /// The factors connected to the variable, in the order they were added.
    pub closed spec fn factors_view(&self) -> Seq<FactorId> {
        self.factors@
    }

    fn new(variable: Variable) -> (n: Self)
        ensures
            n.variable_view() == variable,
            n.factors_view() == Seq::<FactorId>::empty(),
    {
        Self { variable, factors: Vec::new() }
    }

    /// Return the variable represented by this node.
    pub fn variable(&self) -> (v: &Variable)
        ensures
            *v == self.variable_view(),
    {
        &self.variable
    }

    /// Return the factors connected to this variable.
    pub fn factors(&self) -> (f: &[FactorId])
        ensures
            f@ == self.factors_view(),
    {
        self.factors.as_slice()
    }
}

/// A node representing a factor in a [`FactorGraph`].
///
/// The node stores the factor and exposes the variables in its scope as its
/// neighboring variable nodes.
pub struct FactorNode<V> {
    factor: FactorKind<V>,
}

impl<V> FactorNode<V> {
    /// The factor of the node.
    pub closed spec fn factor_view(&self) -> FactorKind<V> {
        self.factor
    }

    /// Return the factor represented by this node.
    pub fn factor(&self) -> (f: &FactorKind<V>)
        ensures
            *f == self.factor_view(),
    {
        &self.factor
    }

    /// Return the variables connected to this factor.
    pub fn scope(&self) -> (s: &[VariableId])
        ensures
            s@ == self.factor_view().scope_view(),
    {
        self.factor.scope()
    }
}

/// The factors among `factors` whose scope contains the variable with index
/// `v`, in increasing order of their identifiers.
pub open spec fn adjacent_factors<V>(factors: Seq<FactorKind<V>>, v: nat) -> Seq<nat>
    decreases factors.len(),
{
    if factors.len() == 0 {
        Seq::empty()
    } else {
        let rest = adjacent_factors(factors.drop_last(), v);
        if exists|a: int| 0 <= a < factors.last().scope_view().len() && (#[trigger] factors.last().scope_view()[a])@ == v {
            rest.push((factors.len() - 1) as nat)
        } else {
            rest
        }
    }
}

/// The indices of a sequence of factor identifiers.
pub open spec fn factor_indices(ids: Seq<FactorId>) -> Seq<nat> {
    ids.map_values(|f: FactorId| f@)
}

/// A factor graph is a bipartite graphical model that decomposes a global
/// function into a collection of local functions (factors) over subsets of
/// variables.
pub struct FactorGraph<V> {
    variables: Vec<VariableNode>,
    factors: Vec<FactorNode<V>>,
    variable_registry: StringHashMap<VariableId>,
}

/// Errors that can occur while constructing a factor graph.
#[derive(Clone, Debug, PartialEq, Eq)]
pub enum GraphError {
    /// A variable with the given name already exists in the graph.
    DuplicateVariableName(String),

    /// A factor references a variable that does not belong to this graph.
    UnknownVariableId(VariableId),
}

impl<V> FactorGraph<V> {
    /// The variables of the graph, in the order they were added.
    pub closed spec fn variables_view(&self) -> Seq<Variable> {
        self.variables@.map_values(|n: VariableNode| n.variable)
    }

    /// The factors of the graph, in the order they were added.
    pub closed spec fn factors_view(&self) -> Seq<FactorKind<V>> {
        self.factors@.map_values(|n: FactorNode<V>| n.factor)
    }

    /// The factors connected to the variable with index `v`.
    pub closed spec fn adjacency_view(&self, v: int) -> Seq<FactorId> {
        self.variables@[v].factors@
    }

    /// The graph's indices agree with its contents: variable names are unique
    /// and registered, factors are well formed and reference variables of the
    /// graph, and each variable lists the factors whose scope contains it.
    pub closed spec fn wf(&self) -> bool {
        &&& forall|i: int, j: int| 0 <= i < self.variables.len() && 0 <= j < self.variables.len() && i != j
            ==> (#[trigger] self.variables@[i]).variable.name_view() != (#[trigger] self.variables@[j]).variable.name_view()
        &&& forall|name: Seq<char>| #[trigger] self.variable_registry@.contains_key(name) <==>
            exists|i: int| 0 <= i < self.variables.len() && (#[trigger] self.variables@[i]).variable.name_view() == name
        &&& forall|i: int| 0 <= i < self.variables.len() ==>
            self.variable_registry@[(#[trigger] self.variables@[i]).variable.name_view()]@ == i
        &&& forall|f: int| 0 <= f < self.factors.len() ==> (#[trigger] self.factors@[f]).factor.wf()
        &&& forall|f: int, a: int| 0 <= f < self.factors.len() && 0 <= a < self.factors@[f].factor.scope_view().len()
            ==> (#[trigger] self.factors@[f].factor.scope_view()[a])@ < self.variables.len()
        &&& forall|v: int| 0 <= v < self.variables.len() ==> factor_indices((#[trigger] self.variables@[v]).factors@)
            == adjacent_factors(self.factors_view(), v as nat)
        &&& self.factors.len() <= usize::MAX
    }

    /// The facts that well-formedness gives about the views.
    pub proof fn lemma_wf(&self)
        requires
            self.wf(),
        ensures
            forall|f: int| 0 <= f < self.factors_view().len() ==> (#[trigger] self.factors_view()[f]).wf(),
            forall|f: int, a: int| 0 <= f < self.factors_view().len() && 0 <= a < self.factors_view()[f].scope_view().len()
                ==> (#[trigger] self.factors_view()[f].scope_view()[a])@ < self.variables_view().len(),
            forall|v: int| 0 <= v < self.variables_view().len() ==> factor_indices(#[trigger] self.adjacency_view(v))
                == adjacent_factors(self.factors_view(), v as nat),
            forall|i: int, j: int| 0 <= i < self.variables_view().len() && 0 <= j < self.variables_view().len() && i != j
                ==> (#[trigger] self.variables_view()[i]).name_view() != (#[trigger] self.variables_view()[j]).name_view(),
            self.factors_view().len() <= usize::MAX,
    {
        assert forall|f: int| 0 <= f < self.factors_view().len() implies (#[trigger] self.factors_view()[f]).wf() by {
            assert(self.factors_view()[f] == self.factors@[f].factor);
        }
        assert forall|f: int, a: int| 0 <= f < self.factors_view().len() && 0 <= a < self.factors_view()[f].scope_view().len()
            implies (#[trigger] self.factors_view()[f].scope_view()[a])@ < self.variables_view().len() by {
            assert(self.factors_view()[f] == self.factors@[f].factor);
            assert(self.factors@[f].factor.scope_view()[a]@ < self.variables.len());
        }
        assert forall|v: int| 0 <= v < self.variables_view().len() implies factor_indices(#[trigger] self.adjacency_view(v))
            == adjacent_factors(self.factors_view(), v as nat) by {
            assert(self.variables@[v].factors@ == self.adjacency_view(v));
        }
        assert forall|i: int, j: int| 0 <= i < self.variables_view().len() && 0 <= j < self.variables_view().len() && i != j
            implies (#[trigger] self.variables_view()[i]).name_view() != (#[trigger] self.variables_view()[j]).name_view() by {
            assert(self.variables_view()[i] == self.variables@[i].variable);
            assert(self.variables_view()[j] == self.variables@[j].variable);
            assert(self.variables@[i].variable.name_view() != self.variables@[j].variable.name_view());
        }
    }

    /// Create an empty factor graph.
    pub fn new() -> (g: Self)
        ensures
            g.wf(),
            g.variables_view() == Seq::<Variable>::empty(),
            g.factors_view() == Seq::<FactorKind<V>>::empty(),
    {
        let g = Self { variables: Vec::new(), factors: Vec::new(), variable_registry: StringHashMap::new() };
        assert(g.variables_view() =~= Seq::<Variable>::empty());
        assert(g.factors_view() =~= Seq::<FactorKind<V>>::empty());
        g
    }

    /// Add a variable to the graph.
    ///
    /// Variable names must be unique within the graph. The returned
    /// [`VariableId`] can be used to refer to the variable from factors and
    /// other graph operations.
    ///
    /// # Errors
    ///
    /// Returns [`GraphError::DuplicateVariableName`] if a variable with the
    /// same name already exists in the graph; the graph is then unchanged.
    pub fn add_variable(&mut self, variable: Variable) -> (r: Result<VariableId, GraphError>)
        requires
            old(self).wf(),
        ensures
            final(self).wf(),
            final(self).factors_view() == old(self).factors_view(),
            (exists|i: int| 0 <= i < old(self).variables_view().len()
                && (#[trigger] old(self).variables_view()[i]).name_view() == variable.name_view())
                <==> r is Err,
            r matches Err(e) ==> e matches GraphError::DuplicateVariableName(n) && n@ == variable.name_view()
                && final(self).variables_view() == old(self).variables_view(),
            r matches Ok(id) ==> id@ == old(self).variables_view().len()
                && final(self).variables_view() == old(self).variables_view().push(variable),
            forall|v: int| 0 <= v < old(self).variables_view().len() ==> #[trigger] final(self).adjacency_view(v)
                == old(self).adjacency_view(v),
            r is Ok ==> final(self).adjacency_view(old(self).variables_view().len() as int)
                == Seq::<FactorId>::empty(),
    {
        let name = variable.name().to_owned();
        if self.variable_registry.contains_key(name.as_str()) {
            proof {
                let i = choose|i: int| 0 <= i < self.variables.len() && (#[trigger] self.variables@[i]).variable.name_view() == name@;
                assert(self.variables_view()[i] == self.variables@[i].variable);
            }
            return Err(GraphError::DuplicateVariableName(name));
        }
        proof {
            assert forall|i: int| 0 <= i < self.variables_view().len() implies (#[trigger] self.variables_view()[i]).name_view()
                != variable.name_view() by {
                assert(self.variables_view()[i] == self.variables@[i].variable);
                if self.variables@[i].variable.name_view() == name@ {
                    assert(self.variable_registry@.contains_key(name@));
                }
            }
        }
        let ghost old_vars = self.variables@;
        let ghost old_view = self.variables_view();
        let id = VariableId::new(self.variables.len());
        self.variables.push(VariableNode::new(variable));
        self.variable_registry.insert(name, id);
        proof {
            let n = old_vars.len() as int;
            assert(self.variables@[n].variable == variable);
            assert(self.variables_view() =~= old_view.push(variable));
            assert forall|i: int, j: int| 0 <= i < self.variables.len() && 0 <= j < self.variables.len() && i != j
                implies (#[trigger] self.variables@[i]).variable.name_view() != (#[trigger] self.variables@[j]).variable.name_view() by {
                if i < n && j < n {
                    assert(self.variables@[i] == old_vars[i]);
                    assert(self.variables@[j] == old_vars[j]);
                } else if i < n {
                    assert(old_view[i] == old_vars[i].variable);
                } else if j < n {
                    assert(old_view[j] == old_vars[j].variable);
                }
            }
            assert forall|nm: Seq<char>| #[trigger] self.variable_registry@.contains_key(nm) <==>
                exists|i: int| 0 <= i < self.variables.len() && (#[trigger] self.variables@[i]).variable.name_view() == nm by {
                if nm != name@ && self.variable_registry@.contains_key(nm) {
                    let i = choose|i: int| 0 <= i < old_vars.len() && (#[trigger] old_vars[i]).variable.name_view() == nm;
                    assert(self.variables@[i] == old_vars[i]);
                }
                if exists|i: int| 0 <= i < self.variables.len() && (#[trigger] self.variables@[i]).variable.name_view() == nm {
                    let i = choose|i: int| 0 <= i < self.variables.len() && (#[trigger] self.variables@[i]).variable.name_view() == nm;
                    if i < n {
                        assert(self.variables@[i] == old_vars[i]);
                    }
                }
            }
            assert forall|i: int| 0 <= i < self.variables.len() implies
                self.variable_registry@[(#[trigger] self.variables@[i]).variable.name_view()]@ == i by {
                if i < n {
                    assert(self.variables@[i] == old_vars[i]);
                    assert(old_view[i] == old_vars[i].variable);
                }
            }
            assert forall|v: int| 0 <= v < self.variables.len() implies factor_indices((#[trigger] self.variables@[v]).factors@)
                == adjacent_factors(self.factors_view(), v as nat) by {
                if v < n {
                    assert(self.variables@[v] == old_vars[v]);
                } else {
                    lemma_no_adjacent(self.factors_view(), v as nat);
                    assert(factor_indices(self.variables@[v].factors@) =~= Seq::<nat>::empty());
                }
            }
            assert forall|f: int, a: int| 0 <= f < self.factors.len() && 0 <= a < self.factors@[f].factor.scope_view().len()
                implies (#[trigger] self.factors@[f].factor.scope_view()[a])@ < self.variables.len() by {
            }
        }
        Ok(id)
    }

    /// Return the number of variables in the graph.
    pub fn num_variables(&self) -> (n: usize)
        ensures
            n == self.variables_view().len(),
    {
        self.variables.len()
    }

    /// Return the variable identified by `id`.
    ///
    /// This provides access to the underlying variable without exposing its
    /// graph connectivity.
    pub fn variable(&self, id: VariableId) -> (r: Option<&Variable>)
        ensures
            r matches Some(v) ==> id@ < self.variables_view().len() && *v == self.variables_view()[id@ as int],
            r is None <==> id@ >= self.variables_view().len(),
    {
        if id.index() < self.variables.len() {
            Some(self.variables[id.index()].variable())
        } else {
            None
        }
    }

    /// Return the variable node identified by `id`.
    ///
    /// The node provides access to both the variable and the factors
    /// connected to it.
    pub fn variable_node(&self, id: VariableId) -> (r: Option<&VariableNode>)
        ensures
            r matches Some(node) ==> id@ < self.variables_view().len() && node.variable_view()
                == self.variables_view()[id@ as int] && node.factors_view() == self.adjacency_view(id@ as int),
            r is None <==> id@ >= self.variables_view().len(),
    {
        if id.index() < self.variables.len() {
            Some(&self.variables[id.index()])
        } else {
            None
        }
    }

    /// Return the ID of the variable with the given name.
    ///
    /// Variable names are unique within a graph, so a successful lookup
    /// identifies exactly one variable.
    pub fn variable_id(&self, name: &str) -> (r: Option<VariableId>)
        requires
            self.wf(),
        ensures
            r is None <==> (forall|i: int| 0 <= i < self.variables_view().len()
                ==> (#[trigger] self.variables_view()[i]).name_view() != name@),
            r matches Some(id) ==> id@ < self.variables_view().len()
                && self.variables_view()[id@ as int].name_view() == name@,
    {
        match self.variable_registry.get(name) {
            Some(id) => {
                proof {
                    let i = choose|i: int| 0 <= i < self.variables.len() && (#[trigger] self.variables@[i]).variable.name_view() == name@;
                    assert(self.variables_view()[i] == self.variables@[i].variable);
                }
                Some(*id)
            },
            None => {
                proof {
                    assert forall|i: int| 0 <= i < self.variables_view().len() implies (#[trigger] self.variables_view()[i]).name_view()
                        != name@ by {
                        assert(self.variables_view()[i] == self.variables@[i].variable);
                        if self.variables@[i].variable.name_view() == name@ {
                            assert(self.variable_registry@.contains_key(name@));
                        }
                    }
                }
                None
            },
        }
    }

    /// Add a factor to the graph.
    ///
    /// Every variable in the factor's scope must belong to this graph.
    ///
    /// # Errors
    ///
    /// Returns [`GraphError::UnknownVariableId`] with the first variable of the
    /// factor's scope that does not belong to this graph; the graph is then
    /// unchanged.
    pub fn add_factor(&mut self, factor: FactorKind<V>) -> (r: Result<FactorId, GraphError>)
        requires
            old(self).wf(),
            factor.wf(),
            old(self).factors_view().len() < usize::MAX,
        ensures
            final(self).wf(),
            final(self).variables_view() == old(self).variables_view(),
            (exists|a: int| 0 <= a < factor.scope_view().len() && (#[trigger] factor.scope_view()[a])@
                >= old(self).variables_view().len()) <==> r is Err,
            r matches Err(e) ==> final(self).factors_view() == old(self).factors_view() && exists|a: int|
                0 <= a < factor.scope_view().len() && e == GraphError::UnknownVariableId(factor.scope_view()[a])
                && factor.scope_view()[a]@ >= old(self).variables_view().len()
                && forall|b: int| 0 <= b < a ==> (#[trigger] factor.scope_view()[b])@ < old(self).variables_view().len(),
            r matches Ok(id) ==> id@ == old(self).factors_view().len() && final(self).factors_view()
                == old(self).factors_view().push(factor),
            r is Err ==> forall|v: int| 0 <= v < old(self).variables_view().len() ==> #[trigger] final(self).adjacency_view(v)
                == old(self).adjacency_view(v),
            r matches Ok(id) ==> forall|v: int| 0 <= v < old(self).variables_view().len() ==> #[trigger] final(self).adjacency_view(v)
                == if exists|a: int| 0 <= a < factor.scope_view().len() && (#[trigger] factor.scope_view()[a])@ == v {
                    old(self).adjacency_view(v).push(id)
                } else {
                    old(self).adjacency_view(v)
                },
    {
        let scope = factor.scope();
        let mut k: usize = 0;
        while k < scope.len()
            invariant
                k <= scope.len(),
                scope@ == factor.scope_view(),
                forall|b: int| 0 <= b < k ==> (#[trigger] scope@[b])@ < self.variables.len(),
                *self == *old(self),
                old(self).wf(),
            decreases scope.len() - k,
        {
            if scope[k].index() >= self.variables.len() {
                proof {
                    assert(self.variables_view().len() == self.variables.len());
                    assert(self.wf());
                }
                return Err(GraphError::UnknownVariableId(scope[k]));
            }
            k += 1;
        }
        let id = FactorId::new(self.factors.len());
        proof {
            factor.lemma_scope();
        }
        let ghost old_vars = self.variables@;
        let ghost old_factors = self.factors_view();
        proof {
            assert(old_vars == old(self).variables@);
        }
        let mut k: usize = 0;
        while k < scope.len()
            invariant
                k <= scope.len(),
                scope@ == factor.scope_view(),
                factor.wf(),
                distinct_vars(scope@),
                self.factors@ == old(self).factors@,
                self.variable_registry@ == old(self).variable_registry@,
                old_factors == old(self).factors_view(),
                forall|b: int| 0 <= b < scope.len() ==> (#[trigger] scope@[b])@ < self.variables.len(),
                self.variables.len() == old_vars.len(),
                forall|v: int| 0 <= v < self.variables.len() ==> (#[trigger] self.variables@[v]).variable
                    == old_vars[v].variable,
                forall|v: int| 0 <= v < self.variables.len() ==> (#[trigger] self.variables@[v]).factors@ == if exists|b: int|
                    0 <= b < k && (#[trigger] scope@[b])@ == v {
                    old_vars[v].factors@.push(id)
                } else {
                    old_vars[v].factors@
                },
            decreases scope.len() - k,
        {
            let v = scope[k].index();
            let ghost before = self.variables@;
            self.variables[v].factors.push(id);
            proof {
                assert forall|w: int| 0 <= w < self.variables.len() implies (#[trigger] self.variables@[w]).factors@
                    == if exists|b: int| 0 <= b < k + 1 && (#[trigger] scope@[b])@ == w {
                    old_vars[w].factors@.push(id)
                } else {
                    old_vars[w].factors@
                } by {
                    if w == v {
                        assert(scope@[k as int]@ == w);
                        if exists|b: int| 0 <= b < k && (#[trigger] scope@[b])@ == w {
                            let b = choose|b: int| 0 <= b < k && (#[trigger] scope@[b])@ == w;
                            assert(scope@[b]@ != scope@[k as int]@);
                        }
                    } else {
                        assert(self.variables@[w] == before[w]);
                        if exists|b: int| 0 <= b < k + 1 && (#[trigger] scope@[b])@ == w {
                            let b = choose|b: int| 0 <= b < k + 1 && (#[trigger] scope@[b])@ == w;
                            assert(b != k);
                        }
                    }
                }
            }
            k += 1;
        }
        self.factors.push(FactorNode { factor });
        proof {
            let n = old_factors.len();
            assert(self.factors_view() =~= old_factors.push(factor));
            assert(self.variables_view() =~= old_vars.map_values(|nd: VariableNode| nd.variable));
            assert forall|v: int| 0 <= v < self.variables.len() implies factor_indices((#[trigger] self.variables@[v]).factors@)
                == adjacent_factors(self.factors_view(), v as nat) by {
                assert(self.factors_view().drop_last() =~= old_factors);
                assert(self.factors_view().last() == factor);
                if exists|b: int| 0 <= b < scope.len() && (#[trigger] scope@[b])@ == v {
                    assert(factor_indices(old_vars[v].factors@.push(id)) =~= factor_indices(old_vars[v].factors@).push(id@));
                } else {
                    assert(!exists|a: int| 0 <= a < factor.scope_view().len() && (#[trigger] factor.scope_view()[a])@ == v as nat);
                }
            }
            assert(self.factors.len() <= usize::MAX);
            assert forall|f: int| 0 <= f < self.factors.len() implies (#[trigger] self.factors@[f]).factor.wf() by {
                if f < n {
                    assert(self.factors@[f].factor == old_factors[f]);
                }
            }
            assert forall|f: int, a: int| 0 <= f < self.factors.len() && 0 <= a < self.factors@[f].factor.scope_view().len()
                implies (#[trigger] self.factors@[f].factor.scope_view()[a])@ < self.variables.len() by {
                if f < n {
                    assert(self.factors@[f].factor == old_factors[f]);
                }
            }
            assert forall|v: int| 0 <= v < old_vars.len() implies #[trigger] self.adjacency_view(v) == if exists|a: int|
                0 <= a < factor.scope_view().len() && (#[trigger] factor.scope_view()[a])@ == v {
                old_vars[v].factors@.push(id)
            } else {
                old_vars[v].factors@
            } by {
                assert(self.adjacency_view(v) == self.variables@[v].factors@);
            }
            assert(forall|i: int, j: int| 0 <= i < self.variables.len() && 0 <= j < self.variables.len() && i != j
                ==> (#[trigger] self.variables@[i]).variable.name_view() != (#[trigger] self.variables@[j]).variable.name_view());
            assert forall|name: Seq<char>| #[trigger] self.variable_registry@.contains_key(name) <==>
                exists|i: int| 0 <= i < self.variables.len() && (#[trigger] self.variables@[i]).variable.name_view() == name by {
                if self.variable_registry@.contains_key(name) {
                    let i = choose|i: int| 0 <= i < old_vars.len() && (#[trigger] old_vars[i]).variable.name_view() == name;
                    assert(self.variables@[i].variable == old_vars[i].variable);
                }
                if exists|i: int| 0 <= i < self.variables.len() && (#[trigger] self.variables@[i]).variable.name_view() == name {
                    let i = choose|i: int| 0 <= i < self.variables.len() && (#[trigger] self.variables@[i]).variable.name_view() == name;
                    assert(self.variables@[i].variable == old_vars[i].variable);
                    assert(old_vars[i].variable.name_view() == name);
                }
            }
            assert forall|i: int| 0 <= i < self.variables.len() implies
                self.variable_registry@[(#[trigger] self.variables@[i]).variable.name_view()]@ == i by {
                assert(self.variables@[i].variable == old_vars[i].variable);
            }
        }
        Ok(id)
    }

    /// Return the number of factors in the graph.
    pub fn num_factors(&self) -> (n: usize)
        ensures
            n == self.factors_view().len(),
    {
        self.factors.len()
    }

    /// Get a factor by its identifier.
    pub fn factor(&self, id: FactorId) -> (r: Option<&FactorKind<V>>)
        ensures
            r matches Some(f) ==> id@ < self.factors_view().len() && *f == self.factors_view()[id@ as int],
            r is None <==> id@ >= self.factors_view().len(),
    {
        if id.index() < self.factors.len() {
            Some(self.factors[id.index()].factor())
        } else {
            None
        }
    }

    /// Return the factor node identified by `id`.
    pub fn factor_node(&self, id: FactorId) -> (r: Option<&FactorNode<V>>)
        ensures
            r matches Some(node) ==> id@ < self.factors_view().len() && node.factor_view() == self.factors_view()[id@ as int],
            r is None <==> id@ >= self.factors_view().len(),
    {
        if id.index() < self.factors.len() {
            Some(&self.factors[id.index()])
        } else {
            None
        }
    }

    /// Return all variable nodes in the graph.
    pub fn variables(&self) -> (nodes: &[VariableNode])
        ensures
            nodes@.len() == self.variables_view().len(),
            forall|i: int| 0 <= i < nodes@.len() ==> (#[trigger] nodes@[i]).variable_view() == self.variables_view()[i]
                && nodes@[i].factors_view() == self.adjacency_view(i),
    {
        self.variables.as_slice()
    }

    /// Return all factor nodes in the graph.
    pub fn factors(&self) -> (nodes: &[FactorNode<V>])
        ensures
            nodes@.len() == self.factors_view().len(),
            forall|i: int| 0 <= i < nodes@.len() ==> (#[trigger] nodes@[i]).factor_view() == self.factors_view()[i],
    {
        self.factors.as_slice()
    }
}

/// A variable outside every factor's scope has no adjacent factors.
pub proof fn lemma_no_adjacent<V>(factors: Seq<FactorKind<V>>, v: nat)
    requires
        forall|f: int, a: int| 0 <= f < factors.len() && 0 <= a < factors[f].scope_view().len()
            ==> (#[trigger] factors[f].scope_view()[a])@ < v,
    ensures
        adjacent_factors(factors, v) == Seq::<nat>::empty(),
    decreases factors.len(),
{
    if factors.len() > 0 {
        let d = factors.drop_last();
        assert forall|f: int, a: int| 0 <= f < d.len() && 0 <= a < d[f].scope_view().len()
            implies (#[trigger] d[f].scope_view()[a])@ < v by {
            assert(d[f] == factors[f]);
        }
        lemma_no_adjacent(d, v);
        let last = factors.len() - 1;
        assert(!exists|a: int| 0 <= a < factors.last().scope_view().len() && (#[trigger] factors.last().scope_view()[a])@ == v) by {
            assert forall|a: int| 0 <= a < factors.last().scope_view().len() implies (#[trigger] factors.last().scope_view()[a])@
                != v by {
                assert(factors[last].scope_view()[a]@ < v);
            }
        }
    }
}

} // verus!
