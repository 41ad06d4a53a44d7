//! The abstract syntax tree that the parser builds, and for every node type
//! the mathematical value that contracts speak of.
//!
//! A node owns its children; the sequences in it keep the order of the
//! source.

use crate::integer::Integer;
use vstd::prelude::*;

verus! {

/// The operators. The set is fixed.
#[derive(Debug, Eq, PartialEq, Clone, Copy)]
pub enum OpSymbol {
    Plus,
    Minus,
    Star,
    ForwardSlash,
    LAngleBracket,
    RAngleBracket,
    Circumflex,
}

/// A symbolic, namespaced construct, apart from ordinary identifiers.
#[derive(Debug, PartialEq)]
pub enum Tag {
    /// Tags combined by an operator.
    OpCall { op: OpSymbol, args: Vec<Box<Tag>> },
    /// An ordered group of tags.
    Assign { pats: Vec<Box<Tag>> },
    /// The root of a namespace.
    PrimaryIdentifier(String),
    /// A member of a namespace.
    Identifier(String),
}

/// The value of a `Tag`.
pub enum TagView {
    OpCall { op: OpSymbol, args: Seq<TagView> },
    Assign { pats: Seq<TagView> },
    PrimaryIdentifier(Seq<char>),
    Identifier(Seq<char>),
}

impl Tag {
    /// The value of the tag.
    pub open spec fn model(self) -> TagView
        decreases self,
    {
        match self {
            Tag::OpCall { op, args } => TagView::OpCall { op, args: Tag::models(args@) },
            Tag::Assign { pats } => TagView::Assign { pats: Tag::models(pats@) },
            Tag::PrimaryIdentifier(name) => TagView::PrimaryIdentifier(name@),
            Tag::Identifier(name) => TagView::Identifier(name@),
        }
    }

    /// The values of a run of tags, in order.
    pub open spec fn models(tags: Seq<Box<Tag>>) -> Seq<TagView>
        decreases tags,
    {
        Seq::new(
            tags.len(),
            |i: int|
                if 0 <= i < tags.len() {
                    (*tags[i]).model()
                } else {
                    TagView::Assign { pats: Seq::empty() }
                },
        )
    }
}

impl Tag {
    /// A copy of the tag with all that is below it.
    fn copy(&self) -> (copy: Tag)
        ensures
            copy@ == self@,
        decreases self,
    {
        match self {
            Tag::OpCall { op, args } => Tag::OpCall { op: *op, args: Tag::copies(args) },
            Tag::Assign { pats } => Tag::Assign { pats: Tag::copies(pats) },
            Tag::PrimaryIdentifier(name) => Tag::PrimaryIdentifier(name.clone()),
            Tag::Identifier(name) => Tag::Identifier(name.clone()),
        }
    }

    fn copies(tags: &Vec<Box<Tag>>) -> (copies: Vec<Box<Tag>>)
        ensures
            Tag::models(copies@) == Tag::models(tags@),
        decreases tags,
    {
        let mut copies: Vec<Box<Tag>> = Vec::new();
        let mut i: usize = 0;
        while i < tags.len()
            invariant
                i <= tags.len(),
                copies@.len() == i,
                forall|j: int| 0 <= j < i ==> (*copies@[j])@ == (*tags@[j])@,
            decreases tags.len() - i,
        {
            copies.push(Box::new(tags[i].copy()));
            i += 1;
        }
        assert(Tag::models(copies@) =~= Tag::models(tags@));
        copies
    }
}

impl Clone for Tag {
    fn clone(&self) -> (copy: Tag)
        ensures
            copy@ == self@,
    {
        self.copy()
    }
}

impl TagView {
    /// Every operator combines exactly two tags.
    pub open spec fn well_formed(self) -> bool
        decreases self,
    {
        match self {
            TagView::OpCall { op, args } => args.len() == 2 && forall|i: int|
                0 <= i < args.len() ==> (#[trigger] args[i]).well_formed(),
            TagView::Assign { pats } => forall|i: int|
                0 <= i < pats.len() ==> (#[trigger] pats[i]).well_formed(),
            _ => true,
        }
    }
}

impl View for Tag {
    type V = TagView;

    open spec fn view(&self) -> TagView {
        self.model()
    }
}

/// What a match arm, a destructuring block or a binding selects by.
#[derive(Debug, PartialEq)]
pub enum Pattern {
    /// Matches anything, binds nothing.
    Wildcard,
    /// A range; a missing bound leaves that side open.
    Range { start: Option<Box<Pattern>>, end: Option<Box<Pattern>> },
    Integer(Integer),
    /// Matches anything, and binds it to the name.
    Identifier(String),
    StringLiteral(String),
}

/// The value of a `Pattern`.
pub enum PatternView {
    Wildcard,
    Range { start: Option<Box<PatternView>>, end: Option<Box<PatternView>> },
    Integer(nat),
    Identifier(Seq<char>),
    StringLiteral(Seq<char>),
}

impl Pattern {
    /// The value of the pattern.
    pub open spec fn model(self) -> PatternView
        decreases self,
    {
        match self {
            Pattern::Wildcard => PatternView::Wildcard,
            Pattern::Range { start, end } => PatternView::Range {
                start: match start {
                    Some(bound) => Some(Box::new((*bound).model())),
                    None => None,
                },
                end: match end {
                    Some(bound) => Some(Box::new((*bound).model())),
                    None => None,
                },
            },
            Pattern::Integer(number) => PatternView::Integer(number@),
            Pattern::Identifier(name) => PatternView::Identifier(name@),
            Pattern::StringLiteral(text) => PatternView::StringLiteral(text@),
        }
    }
}

impl Pattern {
    /// A copy of the pattern with its bounds.
    fn copy(&self) -> (copy: Pattern)
        ensures
            copy@ == self@,
        decreases self,
    {
        match self {
            Pattern::Wildcard => Pattern::Wildcard,
            Pattern::Range { start, end } => Pattern::Range {
                start: match start {
                    Some(bound) => Some(Box::new(bound.copy())),
                    None => None,
                },
                end: match end {
                    Some(bound) => Some(Box::new(bound.copy())),
                    None => None,
                },
            },
            Pattern::Integer(number) => Pattern::Integer(number.clone()),
            Pattern::Identifier(name) => Pattern::Identifier(name.clone()),
            Pattern::StringLiteral(text) => Pattern::StringLiteral(text.clone()),
        }
    }
}

impl Clone for Pattern {
    fn clone(&self) -> (copy: Pattern)
        ensures
            copy@ == self@,
    {
        self.copy()
    }
}

impl View for Pattern {
    type V = PatternView;

    open spec fn view(&self) -> PatternView {
        self.model()
    }
}

/// A type as a declaration or an ascription writes it.
#[derive(Debug, PartialEq)]
#[allow(inconsistent_fields)]
pub enum Type {
    /// A function type: as many argument types as the function has
    /// parameters, and the type of its result.
    FnSig { args: Vec<Box<Type>>, ret: Box<Type> },
    Tag(Tag),
    /// The type of one number.
    Nat(Integer),
    /// A type by its name.
    Identifier(String),
}

/// The value of a `Type`.
#[allow(inconsistent_fields)]
pub enum TypeView {
    FnSig { args: Seq<TypeView>, ret: Box<TypeView> },
    Tag(TagView),
    Nat(nat),
    Identifier(Seq<char>),
}

impl Type {
    /// The value of the type.
    pub open spec fn model(self) -> TypeView
        decreases self,
    {
        match self {
            Type::FnSig { args, ret } => TypeView::FnSig {
                args: Type::models(args@),
                ret: Box::new((*ret).model()),
            },
            Type::Tag(tag) => TypeView::Tag(tag@),
            Type::Nat(number) => TypeView::Nat(number@),
            Type::Identifier(name) => TypeView::Identifier(name@),
        }
    }

    /// The values of a run of types, in order.
    pub open spec fn models(types: Seq<Box<Type>>) -> Seq<TypeView>
        decreases types,
    {
        Seq::new(
            types.len(),
            |i: int|
                if 0 <= i < types.len() {
                    (*types[i]).model()
                } else {
                    TypeView::Nat(0)
                },
        )
    }
}

impl Type {
    /// A copy of the type with all that is below it.
    fn copy(&self) -> (copy: Type)
        ensures
            copy@ == self@,
        decreases self,
    {
        match self {
            Type::FnSig { args, ret } => Type::FnSig {
                args: Type::copies(args),
                ret: Box::new(ret.copy()),
            },
            Type::Tag(tag) => Type::Tag(tag.clone()),
            Type::Nat(number) => Type::Nat(number.clone()),
            Type::Identifier(name) => Type::Identifier(name.clone()),
        }
    }

    fn copies(types: &Vec<Box<Type>>) -> (copies: Vec<Box<Type>>)
        ensures
            Type::models(copies@) == Type::models(types@),
        decreases types,
    {
        let mut copies: Vec<Box<Type>> = Vec::new();
        let mut i: usize = 0;
        while i < types.len()
            invariant
                i <= types.len(),
                copies@.len() == i,
                forall|j: int| 0 <= j < i ==> (*copies@[j])@ == (*types@[j])@,
            decreases types.len() - i,
        {
            copies.push(Box::new(types[i].copy()));
            i += 1;
        }
        assert(Type::models(copies@) =~= Type::models(types@));
        copies
    }
}

impl Clone for Type {
    fn clone(&self) -> (copy: Type)
        ensures
            copy@ == self@,
    {
        self.copy()
    }
}

impl TypeView {
    /// A function type has at least one argument type.
    pub open spec fn well_formed(self) -> bool
        decreases self,
    {
        match self {
            TypeView::FnSig { args, ret } => args.len() > 0 && ret.well_formed() && forall|i: int|
                0 <= i < args.len() ==> (#[trigger] args[i]).well_formed(),
            TypeView::Tag(tag) => tag.well_formed(),
            _ => true,
        }
    }
}

impl View for Type {
    type V = TypeView;

    open spec fn view(&self) -> TypeView {
        self.model()
    }
}

/// An expression: everything that has a value.
#[derive(Debug, PartialEq)]
#[allow(inconsistent_fields)]
pub enum Expression {
    /// An operator applied to its operands: two, for every operator there is.
    OpCall { op: OpSymbol, args: Vec<Box<Expression>> },
    /// A function applied to its arguments, of which there may be none.
    FnCall { name: String, args: Vec<Expression> },
    /// Dispatch on a value. Every arm pairs a pattern with a result; the
    /// arms are tried from the first to the last.
    Match { expr: Box<Expression>, args: Vec<Expression> },
    /// A block that is evaluated only if the pattern matches.
    Destructure { pat: Pattern, body: Vec<Box<Expression>> },
    /// A group of bindings. With a body, they hold within the body only.
    ValueDecl { assigns: Vec<Box<Expression>>, body: Option<Vec<Box<Expression>>> },
    /// One binding of a pattern to a value.
    ValueAssign { pat: Pattern, expr: Box<Expression> },
    /// One binding of a tag to a tag.
    TagAssign { tag: Tag, expr: Tag },
    /// An expression with its type ascribed.
    TypeDecl { ty: Type, expr: Box<Expression> },
    Integer(Integer),
    Identifier(String),
    StringLiteral(String),
    List(Vec<Box<Expression>>),
}

/// The value of an `Expression`.
#[allow(inconsistent_fields)]
pub enum ExpressionView {
    OpCall { op: OpSymbol, args: Seq<ExpressionView> },
    FnCall { name: Seq<char>, args: Seq<ExpressionView> },
    Match { expr: Box<ExpressionView>, args: Seq<ExpressionView> },
    Destructure { pat: PatternView, body: Seq<ExpressionView> },
    ValueDecl { assigns: Seq<ExpressionView>, body: Option<Seq<ExpressionView>> },
    ValueAssign { pat: PatternView, expr: Box<ExpressionView> },
    TagAssign { tag: TagView, expr: TagView },
    TypeDecl { ty: TypeView, expr: Box<ExpressionView> },
    Integer(nat),
    Identifier(Seq<char>),
    StringLiteral(Seq<char>),
    List(Seq<ExpressionView>),
}

impl Expression {
    /// The value of the expression.
    pub open spec fn model(self) -> ExpressionView
        decreases self,
    {
        match self {
            Expression::OpCall { op, args } => ExpressionView::OpCall {
                op,
                args: Expression::boxed_models(args@),
            },
            Expression::FnCall { name, args } => ExpressionView::FnCall {
                name: name@,
                args: Expression::models(args@),
            },
            Expression::Match { expr, args } => ExpressionView::Match {
                expr: Box::new((*expr).model()),
                args: Expression::models(args@),
            },
            Expression::Destructure { pat, body } => ExpressionView::Destructure {
                pat: pat@,
                body: Expression::boxed_models(body@),
            },
            Expression::ValueDecl { assigns, body } => ExpressionView::ValueDecl {
                assigns: Expression::boxed_models(assigns@),
                body: match body {
                    Some(block) => Some(Expression::boxed_models(block@)),
                    None => None,
                },
            },
            Expression::ValueAssign { pat, expr } => ExpressionView::ValueAssign {
                pat: pat@,
                expr: Box::new((*expr).model()),
            },
            Expression::TagAssign { tag, expr } => ExpressionView::TagAssign {
                tag: tag@,
                expr: expr@,
            },
            Expression::TypeDecl { ty, expr } => ExpressionView::TypeDecl {
                ty: ty@,
                expr: Box::new((*expr).model()),
            },
            Expression::Integer(number) => ExpressionView::Integer(number@),
            Expression::Identifier(name) => ExpressionView::Identifier(name@),
            Expression::StringLiteral(text) => ExpressionView::StringLiteral(text@),
            Expression::List(items) => ExpressionView::List(Expression::boxed_models(items@)),
        }
    }

    /// The values of a run of expressions, in order.
    pub open spec fn models(expressions: Seq<Expression>) -> Seq<ExpressionView>
        decreases expressions,
    {
        Seq::new(
            expressions.len(),
            |i: int|
                if 0 <= i < expressions.len() {
                    expressions[i].model()
                } else {
                    ExpressionView::List(Seq::empty())
                },
        )
    }

    /// The values of a run of boxed expressions, in order.
    pub open spec fn boxed_models(expressions: Seq<Box<Expression>>) -> Seq<ExpressionView>
        decreases expressions,
    {
        Seq::new(
            expressions.len(),
            |i: int|
                if 0 <= i < expressions.len() {
                    (*expressions[i]).model()
                } else {
                    ExpressionView::List(Seq::empty())
                },
        )
    }
}

impl Expression {
    /// A copy of the expression with all that is below it.
    fn copy(&self) -> (copy: Expression)
        ensures
            copy@ == self@,
        decreases self,
    {
        match self {
            Expression::OpCall { op, args } => Expression::OpCall {
                op: *op,
                args: Expression::boxed_copies(args),
            },
            Expression::FnCall { name, args } => Expression::FnCall {
                name: name.clone(),
                args: Expression::copies(args),
            },
            Expression::Match { expr, args } => Expression::Match {
                expr: Box::new(expr.copy()),
                args: Expression::copies(args),
            },
            Expression::Destructure { pat, body } => Expression::Destructure {
                pat: pat.clone(),
                body: Expression::boxed_copies(body),
            },
            Expression::ValueDecl { assigns, body } => Expression::ValueDecl {
                assigns: Expression::boxed_copies(assigns),
                body: match body {
                    Some(block) => Some(Expression::boxed_copies(block)),
                    None => None,
                },
            },
            Expression::ValueAssign { pat, expr } => Expression::ValueAssign {
                pat: pat.clone(),
                expr: Box::new(expr.copy()),
            },
            Expression::TagAssign { tag, expr } => Expression::TagAssign {
                tag: tag.clone(),
                expr: expr.clone(),
            },
            Expression::TypeDecl { ty, expr } => Expression::TypeDecl {
                ty: ty.clone(),
                expr: Box::new(expr.copy()),
            },
            Expression::Integer(number) => Expression::Integer(number.clone()),
            Expression::Identifier(name) => Expression::Identifier(name.clone()),
            Expression::StringLiteral(text) => Expression::StringLiteral(text.clone()),
            Expression::List(items) => Expression::List(Expression::boxed_copies(items)),
        }
    }

    fn copies(expressions: &Vec<Expression>) -> (copies: Vec<Expression>)
        ensures
            Expression::models(copies@) == Expression::models(expressions@),
        decreases expressions,
    {
        let mut copies: Vec<Expression> = Vec::new();
        let mut i: usize = 0;
        while i < expressions.len()
            invariant
                i <= expressions.len(),
                copies@.len() == i,
                forall|j: int| 0 <= j < i ==> copies@[j]@ == expressions@[j]@,
            decreases expressions.len() - i,
        {
            copies.push(expressions[i].copy());
            i += 1;
        }
        assert(Expression::models(copies@) =~= Expression::models(expressions@));
        copies
    }

    fn boxed_copies(expressions: &Vec<Box<Expression>>) -> (copies: Vec<Box<Expression>>)
        ensures
            Expression::boxed_models(copies@) == Expression::boxed_models(expressions@),
        decreases expressions,
    {
        let mut copies: Vec<Box<Expression>> = Vec::new();
        let mut i: usize = 0;
        while i < expressions.len()
            invariant
                i <= expressions.len(),
                copies@.len() == i,
                forall|j: int| 0 <= j < i ==> (*copies@[j])@ == (*expressions@[j])@,
            decreases expressions.len() - i,
        {
            copies.push(Box::new(expressions[i].copy()));
            i += 1;
        }
        assert(Expression::boxed_models(copies@) =~= Expression::boxed_models(expressions@));
        copies
    }
}

impl Clone for Expression {
    fn clone(&self) -> (copy: Expression)
        ensures
            copy@ == self@,
    {
        self.copy()
    }
}

/// Whether every expression of a run has the shape that its kind asks for.
pub open spec fn all_well_formed(expressions: Seq<ExpressionView>) -> bool {
    forall|i: int| 0 <= i < expressions.len() ==> (#[trigger] expressions[i]).well_formed()
}

impl ExpressionView {
    /// A pattern paired with what it guards: the shape of a match arm.
    pub open spec fn is_arm(self) -> bool {
        self is ValueAssign || self is Destructure
    }

    /// An operator has exactly two operands. A match has at least one arm,
    /// and every arm pairs a pattern with its result. A guarded block, a
    /// group of bindings and the body of one are not empty, and a group
    /// of bindings holds bindings only.
    pub open spec fn well_formed(self) -> bool
        decreases self,
    {
        match self {
            ExpressionView::OpCall { op, args } => args.len() == 2 && forall|i: int|
                0 <= i < args.len() ==> (#[trigger] args[i]).well_formed(),
            ExpressionView::FnCall { name, args } => forall|i: int|
                0 <= i < args.len() ==> (#[trigger] args[i]).well_formed(),
            ExpressionView::Match { expr, args } => expr.well_formed() && args.len() > 0
                && forall|i: int|
                0 <= i < args.len() ==> (#[trigger] args[i]).well_formed() && args[i].is_arm(),
            ExpressionView::Destructure { pat, body } => body.len() > 0 && forall|i: int|
                0 <= i < body.len() ==> (#[trigger] body[i]).well_formed(),
            ExpressionView::ValueDecl { assigns, body } => assigns.len() > 0 && (forall|i: int|
                0 <= i < assigns.len() ==> (#[trigger] assigns[i]).well_formed()
                    && assigns[i] is ValueAssign) && match body {
                Some(block) => block.len() > 0 && forall|i: int|
                    0 <= i < block.len() ==> (#[trigger] block[i]).well_formed(),
                None => true,
            },
            ExpressionView::ValueAssign { pat, expr } => expr.well_formed(),
            ExpressionView::TagAssign { tag, expr } => tag.well_formed() && expr.well_formed(),
            ExpressionView::TypeDecl { ty, expr } => ty.well_formed() && expr.well_formed(),
            ExpressionView::List(items) => forall|i: int|
                0 <= i < items.len() ==> (#[trigger] items[i]).well_formed(),
            _ => true,
        }
    }
}

impl View for Expression {
    type V = ExpressionView;

    open spec fn view(&self) -> ExpressionView {
        self.model()
    }
}

/// A declaration at the top level.
#[derive(Debug, PartialEq)]
#[allow(inconsistent_fields)]
pub enum Statement {
    /// A function: its name, its parameters, each name once, and its body,
    /// at least one expression, the last of which is the result.
    FnDecl { name: String, args: Vec<String>, body: Vec<Box<Expression>> },
    /// A name bound to a type.
    TypeDecl { name: String, body: Type },
}

/// The value of a `Statement`.
#[allow(inconsistent_fields)]
pub enum StatementView {
    FnDecl { name: Seq<char>, args: Seq<Seq<char>>, body: Seq<ExpressionView> },
    TypeDecl { name: Seq<char>, body: TypeView },
}

impl Clone for Statement {
    fn clone(&self) -> (copy: Statement)
        ensures
            copy@ == self@,
    {
        match self {
            Statement::FnDecl { name, args, body } => {
                let mut names: Vec<String> = Vec::new();
                let mut i: usize = 0;
                while i < args.len()
                    invariant
                        i <= args.len(),
                        names@.len() == i,
                        forall|j: int| 0 <= j < i ==> names@[j]@ == args@[j]@,
                    decreases args.len() - i,
                {
                    names.push(args[i].clone());
                    i += 1;
                }
                assert(names_view(names@) =~= names_view(args@));
                Statement::FnDecl {
                    name: name.clone(),
                    args: names,
                    body: Expression::boxed_copies(body),
                }
            },
            Statement::TypeDecl { name, body } => Statement::TypeDecl {
                name: name.clone(),
                body: body.clone(),
            },
        }
    }
}

impl StatementView {
    /// A function names no parameter twice and has a body of at least one
    /// expression.
    pub open spec fn well_formed(self) -> bool {
        match self {
            StatementView::FnDecl { name, args, body } => args.no_duplicates() && body.len() > 0
                && all_well_formed(body),
            StatementView::TypeDecl { name, body } => body.well_formed(),
        }
    }
}

/// The values of a run of names, in order.
pub open spec fn names_view(names: Seq<String>) -> Seq<Seq<char>> {
    Seq::new(names.len(), |i: int| names[i]@)
}

impl View for Statement {
    type V = StatementView;

    open spec fn view(&self) -> StatementView {
        match self {
            Statement::FnDecl { name, args, body } => StatementView::FnDecl {
                name: name@,
                args: names_view(args@),
                body: Expression::boxed_models(body@),
            },
            Statement::TypeDecl { name, body } => StatementView::TypeDecl {
                name: name@,
                body: body@,
            },
        }
    }
}

/// The values of a run of statements, in order.
pub open spec fn statements_view(statements: Seq<Statement>) -> Seq<StatementView> {
    Seq::new(statements.len(), |i: int| statements[i]@)
}

/// The values of a run with one more tag at its end.
pub proof fn lemma_tags_push(tags: Seq<Box<Tag>>, tag: Box<Tag>)
    ensures
        Tag::models(tags.push(tag)) == Tag::models(tags).push((*tag)@),
        Tag::models(Seq::empty()) == Seq::<TagView>::empty(),
{
    assert(Tag::models(tags.push(tag)) =~= Tag::models(tags).push((*tag)@));
    assert(Tag::models(Seq::empty()) =~= Seq::<TagView>::empty());
}

/// The values of a run with one more type at its end.
pub proof fn lemma_types_push(types: Seq<Box<Type>>, ty: Box<Type>)
    ensures
        Type::models(types.push(ty)) == Type::models(types).push((*ty)@),
        Type::models(Seq::empty()) == Seq::<TypeView>::empty(),
{
    assert(Type::models(types.push(ty)) =~= Type::models(types).push((*ty)@));
    assert(Type::models(Seq::empty()) =~= Seq::<TypeView>::empty());
}

/// The values of a run with one more expression at its end.
pub proof fn lemma_expressions_push(expressions: Seq<Expression>, expression: Expression)
    ensures
        Expression::models(expressions.push(expression)) == Expression::models(expressions).push(
            expression@,
        ),
        Expression::models(Seq::empty()) == Seq::<ExpressionView>::empty(),
{
    assert(Expression::models(expressions.push(expression)) =~= Expression::models(
        expressions,
    ).push(expression@));
    assert(Expression::models(Seq::empty()) =~= Seq::<ExpressionView>::empty());
}

/// The values of a run with one more boxed expression at its end.
pub proof fn lemma_boxed_push(expressions: Seq<Box<Expression>>, expression: Box<Expression>)
    ensures
        Expression::boxed_models(expressions.push(expression)) == Expression::boxed_models(
            expressions,
        ).push((*expression)@),
        Expression::boxed_models(Seq::empty()) == Seq::<ExpressionView>::empty(),
{
    assert(Expression::boxed_models(expressions.push(expression)) =~= Expression::boxed_models(
        expressions,
    ).push((*expression)@));
    assert(Expression::boxed_models(Seq::empty()) =~= Seq::<ExpressionView>::empty());
}

/// The values of a run with one more name at its end.
pub proof fn lemma_names_push(names: Seq<String>, name: String)
    ensures
        names_view(names.push(name)) == names_view(names).push(name@),
        names_view(Seq::empty()) == Seq::<Seq<char>>::empty(),
{
    assert(names_view(names.push(name)) =~= names_view(names).push(name@));
    assert(names_view(Seq::empty()) =~= Seq::<Seq<char>>::empty());
}

/// The values of a run with one more statement at its end.
pub proof fn lemma_statements_push(statements: Seq<Statement>, statement: Statement)
    ensures
        statements_view(statements.push(statement)) == statements_view(statements).push(
            statement@,
        ),
        statements_view(Seq::empty()) == Seq::<StatementView>::empty(),
{
    assert(statements_view(statements.push(statement)) =~= statements_view(statements).push(
        statement@,
    ));
    assert(statements_view(Seq::empty()) =~= Seq::<StatementView>::empty());
}

} // verus!
