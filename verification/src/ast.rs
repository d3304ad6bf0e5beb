use vstd::prelude::*;

verus! {

/// A single column value in a fact or rule: either a constant (`Fixed`) or a
/// free variable to be bound during resolution (`Free`).
#[derive(Debug)]
pub enum Variable {
    Fixed(String),
    Free(String),
}

/// Mathematical shape of a `Variable`: the constant or variable name as a
/// sequence of characters.
pub enum VariableView {
    Fixed(Seq<char>),
    Free(Seq<char>),
}

impl View for Variable {
    type V = VariableView;

    open spec fn view(&self) -> VariableView {
        match self {
            Variable::Fixed(s) => VariableView::Fixed(s@),
            Variable::Free(s) => VariableView::Free(s@),
        }
    }
}

impl VariableView {
    /// The text of the term, whether constant or variable name.
    pub open spec fn sym(self) -> Seq<char> {
        match self {
            VariableView::Fixed(s) => s,
            VariableView::Free(s) => s,
        }
    }
}

impl Clone for Variable {
    fn clone(&self) -> (res: Self)
        ensures
            res == *self,
    {
        match self {
            Variable::Fixed(s) => Variable::Fixed(s.clone()),
            Variable::Free(s) => Variable::Free(s.clone()),
        }
    }
}

impl PartialEq for Variable {
    fn eq(&self, other: &Variable) -> (r: bool) {
        match (self, other) {
            (Variable::Fixed(a), Variable::Fixed(b)) => *a == *b,
            (Variable::Free(a), Variable::Free(b)) => *a == *b,
            _ => false,
        }
    }
}

impl vstd::std_specs::cmp::PartialEqSpecImpl for Variable {
    open spec fn obeys_eq_spec() -> bool {
        true
    }

    open spec fn eq_spec(&self, other: &Variable) -> bool {
        self@ == other@
    }
}

impl Variable {
    /// The text of the term, whether constant or variable name.
    pub fn sym_ref(&self) -> (r: &String)
        ensures
            r@ == self@.sym(),
    {
        match self {
            Variable::Fixed(s) => s,
            Variable::Free(s) => s,
        }
    }
}

/// An equality (`=`, when `equals` is true) or inequality (`!=`) test between
/// two terms inside a rule body.
#[derive(Debug)]
pub struct EqualityConstraint {
    pub equals: bool,
    pub left: Variable,
    pub right: Variable,
}

/// Mathematical shape of an `EqualityConstraint`.
pub struct EqualityConstraintView {
    pub equals: bool,
    pub left: VariableView,
    pub right: VariableView,
}

impl View for EqualityConstraint {
    type V = EqualityConstraintView;

    open spec fn view(&self) -> EqualityConstraintView {
        EqualityConstraintView { equals: self.equals, left: self.left@, right: self.right@ }
    }
}

impl Clone for EqualityConstraint {
    fn clone(&self) -> (res: Self)
        ensures
            res == *self,
    {
        EqualityConstraint {
            equals: self.equals,
            left: self.left.clone(),
            right: self.right.clone(),
        }
    }
}

impl PartialEq for EqualityConstraint {
    fn eq(&self, other: &EqualityConstraint) -> (r: bool) {
        self.equals == other.equals && self.left == other.left && self.right == other.right
    }
}

impl vstd::std_specs::cmp::PartialEqSpecImpl for EqualityConstraint {
    open spec fn obeys_eq_spec() -> bool {
        true
    }

    open spec fn eq_spec(&self, other: &EqualityConstraint) -> bool {
        self@ == other@
    }
}

/// A named relation applied to an ordered list of terms.  With all terms
/// `Fixed` it is a ground fact; with `Free` terms it is a pattern, as used in
/// queries and rule bodies.
#[derive(Debug)]
pub struct Fact {
    pub name: String,
    pub vars: Vec<Variable>,
}

/// Mathematical shape of a `Fact`.
pub struct FactView {
    pub name: Seq<char>,
    pub vars: Seq<VariableView>,
}

impl View for Fact {
    type V = FactView;

    open spec fn view(&self) -> FactView {
        FactView { name: self.name@, vars: self.vars@.map_values(|v: Variable| v@) }
    }
}

impl FactView {
    /// A fact is ground when every term is a constant.
    pub open spec fn is_ground(self) -> bool {
        forall|i: int| 0 <= i < self.vars.len() ==> self.vars[i] is Fixed
    }

    /// The relation schema this fact belongs to: its name and arity.
    pub open spec fn key(self) -> (Seq<char>, nat) {
        (self.name, self.vars.len())
    }

    /// The set of free variable names appearing in the fact.
    pub open spec fn free_vars(self) -> Set<Seq<char>> {
        Set::new(
            |x: Seq<char>|
                exists|i: int| 0 <= i < self.vars.len() && self.vars[i] == VariableView::Free(x),
        )
    }

    /// The set of constants appearing in the fact.
    pub open spec fn constants(self) -> Set<Seq<char>> {
        Set::new(
            |k: Seq<char>|
                exists|i: int| 0 <= i < self.vars.len() && self.vars[i] == VariableView::Fixed(k),
        )
    }

    /// The texts of all terms of the fact; for a ground fact, its constants.
    pub open spec fn syms(self) -> Set<Seq<char>> {
        Set::new(
            |k: Seq<char>|
                exists|i: int| 0 <= i < self.vars.len() && (#[trigger] self.vars[i]).sym() == k,
        )
    }
}

impl Fact {
    /// True when every term of the fact is a constant.
    pub fn is_ground(&self) -> (r: bool)
        ensures
            r == self@.is_ground(),
    {
        let n = self.vars.len();
        let mut i: usize = 0;
        while i < n
            invariant
                n == self.vars.len(),
                i <= n,
                forall|j: int| 0 <= j < i ==> self@.vars[j] is Fixed,
            decreases n - i,
        {
            match &self.vars[i] {
                Variable::Fixed(_) => {},
                Variable::Free(_) => {
                    proof {
                        assert(self@.vars[i as int] == self.vars@[i as int]@);
                    }
                    return false;
                },
            }
            proof {
                assert(self@.vars[i as int] == self.vars@[i as int]@);
            }
            i += 1;
        }
        true
    }
}

impl Clone for Fact {
    fn clone(&self) -> (res: Self)
        ensures
            res.name == self.name,
            res.vars@ == self.vars@,
            res@ == self@,
    {
        let mut vars: Vec<Variable> = Vec::new();
        let n = self.vars.len();
        let mut i: usize = 0;
        while i < n
            invariant
                n == self.vars.len(),
                i <= n,
                vars@.len() == i as int,
                forall|j: int| 0 <= j < i ==> vars@[j] == self.vars@[j],
            decreases n - i,
        {
            vars.push(self.vars[i].clone());
            i += 1;
        }
        proof {
            assert(vars@ =~= self.vars@);
        }
        Fact { name: self.name.clone(), vars }
    }
}

impl PartialEq for Fact {
    fn eq(&self, other: &Fact) -> (r: bool) {
        if !(self.name == other.name) {
            return false;
        }
        let n = self.vars.len();
        if !(n == other.vars.len()) {
            proof {
                assert(self@.vars.len() == self.vars@.len());
                assert(other@.vars.len() == other.vars@.len());
            }
            return false;
        }
        let mut i: usize = 0;
        while i < n
            invariant
                n == self.vars.len(),
                n == other.vars.len(),
                i <= n,
                self.name@ == other.name@,
                forall|j: int| 0 <= j < i ==> self.vars@[j]@ == other.vars@[j]@,
            decreases n - i,
        {
            if !(self.vars[i] == other.vars[i]) {
                proof {
                    assert(self@.vars[i as int] == self.vars@[i as int]@);
                    assert(other@.vars[i as int] == other.vars@[i as int]@);
                }
                return false;
            }
            i += 1;
        }
        proof {
            assert(self@.vars =~= other@.vars);
        }
        true
    }
}

impl vstd::std_specs::cmp::PartialEqSpecImpl for Fact {
    open spec fn obeys_eq_spec() -> bool {
        true
    }

    open spec fn eq_spec(&self, other: &Fact) -> bool {
        self@ == other@
    }
}

/// One element of a rule body: a fact pattern to be matched, or an equality
/// constraint to be tested.
#[derive(Debug)]
pub enum BodyExpression {
    Fact(Fact),
    Equals(EqualityConstraint),
}

/// Mathematical shape of a `BodyExpression`.
pub enum BodyExpressionView {
    Fact(FactView),
    Equals(EqualityConstraintView),
}

impl BodyExpressionView {
    /// The free variables of a body element that a fact pattern can bind:
    /// constraints bind nothing.
    pub open spec fn pattern_vars(self) -> Set<Seq<char>> {
        match self {
            BodyExpressionView::Fact(f) => f.free_vars(),
            BodyExpressionView::Equals(_) => Set::empty(),
        }
    }
}

impl View for BodyExpression {
    type V = BodyExpressionView;

    open spec fn view(&self) -> BodyExpressionView {
        match self {
            BodyExpression::Fact(f) => BodyExpressionView::Fact(f@),
            BodyExpression::Equals(c) => BodyExpressionView::Equals(c@),
        }
    }
}

impl Clone for BodyExpression {
    fn clone(&self) -> (res: Self)
        ensures
            res@ == self@,
    {
        match self {
            BodyExpression::Fact(f) => BodyExpression::Fact(f.clone()),
            BodyExpression::Equals(c) => BodyExpression::Equals(c.clone()),
        }
    }
}

impl PartialEq for BodyExpression {
    fn eq(&self, other: &BodyExpression) -> (r: bool) {
        match (self, other) {
            (BodyExpression::Fact(a), BodyExpression::Fact(b)) => a == b,
            (BodyExpression::Equals(a), BodyExpression::Equals(b)) => a == b,
            _ => false,
        }
    }
}

impl vstd::std_specs::cmp::PartialEqSpecImpl for BodyExpression {
    open spec fn obeys_eq_spec() -> bool {
        true
    }

    open spec fn eq_spec(&self, other: &BodyExpression) -> bool {
        self@ == other@
    }
}

/// A derivation rule: a head pattern and a conjunctive body.  A rule is
/// accepted by the engine only if every free variable of the head occurs in
/// some fact pattern of the body (range restriction).
#[derive(Debug)]
pub struct Rule {
    pub head: Fact,
    pub body: Vec<BodyExpression>,
}

/// Mathematical shape of a `Rule`.
pub struct RuleView {
    pub head: FactView,
    pub body: Seq<BodyExpressionView>,
}

impl View for Rule {
    type V = RuleView;

    open spec fn view(&self) -> RuleView {
        RuleView { head: self.head@, body: self.body@.map_values(|e: BodyExpression| e@) }
    }
}

/// The free variables that the fact patterns of a rule body can bind.
pub open spec fn body_pattern_vars(body: Seq<BodyExpressionView>) -> Set<Seq<char>> {
    Set::new(
        |x: Seq<char>|
            exists|i: int| 0 <= i < body.len() && #[trigger] body[i].pattern_vars().contains(x),
    )
}

impl RuleView {
    /// The free variables occurring in fact patterns of the body.
    pub open spec fn body_fact_vars(self) -> Set<Seq<char>> {
        body_pattern_vars(self.body)
    }

    /// Range restriction: every free variable of the head occurs in some fact
    /// pattern of the body.
    pub open spec fn is_range_restricted(self) -> bool {
        self.head.free_vars() <= self.body_fact_vars()
    }
}

impl Rule {
    /// Whether some fact pattern of the body binds this variable name.
    #[verifier::loop_isolation(false)]
    fn body_binds(&self, x: &String) -> (r: bool)
        ensures
            r == self@.body_fact_vars().contains(x@),
    {
        let bn = self.body.len();
        let mut j: usize = 0;
        while j < bn
            invariant
                j <= bn,
                forall|jj: int|
                    0 <= jj < j ==> !(#[trigger] self@.body[jj]).pattern_vars().contains(x@),
            decreases bn - j,
        {
            proof {
                assert(self@.body[j as int] == self.body@[j as int]@);
            }
            match &self.body[j] {
                BodyExpression::Fact(p) => {
                    let pn = p.vars.len();
                    let mut k: usize = 0;
                    while k < pn
                        invariant
                            k <= pn,
                            j < bn,
                            forall|kk: int| 0 <= kk < k ==> p@.vars[kk] != VariableView::Free(x@),
                        decreases pn - k,
                    {
                        proof {
                            assert(p@.vars[k as int] == p.vars@[k as int]@);
                        }
                        match &p.vars[k] {
                            Variable::Free(y) => {
                                if *y == *x {
                                    proof {
                                        assert(p@.vars[k as int] == VariableView::Free(x@));
                                        assert(p@.free_vars().contains(x@));
                                        assert(self@.body[j as int].pattern_vars().contains(x@));
                                        assert(self@.body_fact_vars().contains(x@));
                                    }
                                    return true;
                                }
                            },
                            Variable::Fixed(_) => {},
                        }
                        k += 1;
                    }
                    proof {
                        if p@.free_vars().contains(x@) {
                            let kk = choose|kk: int|
                                0 <= kk < p@.vars.len() && p@.vars[kk] == VariableView::Free(x@);
                            assert(false);
                        }
                        assert(!self@.body[j as int].pattern_vars().contains(x@));
                    }
                },
                BodyExpression::Equals(_) => {
                    proof {
                        assert(!self@.body[j as int].pattern_vars().contains(x@));
                    }
                },
            }
            j += 1;
        }
        proof {
            if self@.body_fact_vars().contains(x@) {
                let jj = choose|jj: int|
                    0 <= jj < self@.body.len() && #[trigger] self@.body[jj].pattern_vars().contains(
                        x@,
                    );
                assert(false);
            }
        }
        false
    }

    /// True when every free variable of the head occurs in some fact pattern
    /// of the body: the condition for a rule to be accepted by the engine.
    #[verifier::loop_isolation(false)]
    pub fn is_range_restricted(&self) -> (r: bool)
        ensures
            r == self@.is_range_restricted(),
    {
        let hn = self.head.vars.len();
        let mut i: usize = 0;
        while i < hn
            invariant
                i <= hn,
                forall|ii: int|
                    0 <= ii < i && (#[trigger] self@.head.vars[ii]) is Free
                        ==> self@.body_fact_vars().contains(self@.head.vars[ii].sym()),
            decreases hn - i,
        {
            proof {
                assert(self@.head.vars[i as int] == self.head.vars@[i as int]@);
            }
            match &self.head.vars[i] {
                Variable::Fixed(_) => {},
                Variable::Free(x) => {
                    let bound = self.body_binds(x);
                    if !bound {
                        proof {
                            assert(self@.head.vars[i as int] == VariableView::Free(x@));
                            assert(self@.head.free_vars().contains(x@));
                        }
                        return false;
                    }
                    proof {
                        assert(self@.head.vars[i as int].sym() == x@);
                    }
                },
            }
            i += 1;
        }
        proof {
            assert forall|x: Seq<char>| self@.head.free_vars().contains(x) implies
            self@.body_fact_vars().contains(x) by {
                let ii = choose|ii: int|
                    0 <= ii < self@.head.vars.len() && self@.head.vars[ii] == VariableView::Free(
                        x,
                    );
                assert(self@.head.vars[ii] is Free && self@.head.vars[ii].sym() == x);
            }
        }
        true
    }
}

impl Clone for Rule {
    fn clone(&self) -> (res: Self)
        ensures
            res@ == self@,
    {
        let mut body: Vec<BodyExpression> = Vec::new();
        let n = self.body.len();
        let mut i: usize = 0;
        while i < n
            invariant
                n == self.body.len(),
                i <= n,
                body@.len() == i as int,
                forall|j: int| 0 <= j < i ==> body@[j]@ == self.body@[j]@,
            decreases n - i,
        {
            body.push(self.body[i].clone());
            i += 1;
        }
        proof {
            assert(body@.map_values(|e: BodyExpression| e@) =~= self.body@.map_values(
                |e: BodyExpression| e@,
            ));
        }
        Rule { head: self.head.clone(), body }
    }
}

impl PartialEq for Rule {
    fn eq(&self, other: &Rule) -> (r: bool) {
        if !(self.head == other.head) {
            return false;
        }
        let n = self.body.len();
        if !(n == other.body.len()) {
            proof {
                assert(self@.body.len() == self.body@.len());
                assert(other@.body.len() == other.body@.len());
            }
            return false;
        }
        let mut i: usize = 0;
        while i < n
            invariant
                n == self.body.len(),
                n == other.body.len(),
                i <= n,
                forall|j: int| 0 <= j < i ==> self.body@[j]@ == other.body@[j]@,
            decreases n - i,
        {
            if !(self.body[i] == other.body[i]) {
                proof {
                    assert(self@.body[i as int] == self.body@[i as int]@);
                    assert(other@.body[i as int] == other.body@[i as int]@);
                }
                return false;
            }
            i += 1;
        }
        proof {
            assert(self@.body =~= other@.body);
        }
        true
    }
}

impl vstd::std_specs::cmp::PartialEqSpecImpl for Rule {
    open spec fn obeys_eq_spec() -> bool {
        true
    }

    open spec fn eq_spec(&self, other: &Rule) -> bool {
        self@ == other@
    }
}

/// A parsed input statement, as handed to the engine by its surrounding
/// front end: a rule or fact to assert, or a query pattern to resolve.
#[derive(Debug)]
pub enum Statement {
    Rule(Rule),
    Fact(Fact),
    Query(Fact),
}

/// Mathematical shape of a `Statement`.
pub enum StatementView {
    Rule(RuleView),
    Fact(FactView),
    Query(FactView),
}

impl View for Statement {
    type V = StatementView;

    open spec fn view(&self) -> StatementView {
        match self {
            Statement::Rule(r) => StatementView::Rule(r@),
            Statement::Fact(f) => StatementView::Fact(f@),
            Statement::Query(f) => StatementView::Query(f@),
        }
    }
}

impl Clone for Statement {
    fn clone(&self) -> (res: Self)
        ensures
            res@ == self@,
    {
        match self {
            Statement::Rule(r) => Statement::Rule(r.clone()),
            Statement::Fact(f) => Statement::Fact(f.clone()),
            Statement::Query(f) => Statement::Query(f.clone()),
        }
    }
}

impl PartialEq for Statement {
    fn eq(&self, other: &Statement) -> (r: bool) {
        match (self, other) {
            (Statement::Rule(a), Statement::Rule(b)) => a == b,
            (Statement::Fact(a), Statement::Fact(b)) => a == b,
            (Statement::Query(a), Statement::Query(b)) => a == b,
            _ => false,
        }
    }
}

impl vstd::std_specs::cmp::PartialEqSpecImpl for Statement {
    open spec fn obeys_eq_spec() -> bool {
        true
    }

    open spec fn eq_spec(&self, other: &Statement) -> bool {
        self@ == other@
    }
}

} // verus!
