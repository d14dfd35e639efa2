//! What the lints read of a compiled crate.
use vstd::prelude::*;

use crate::utils;

verus! {

/// An operator with two operands.
#[derive(Debug, Clone, Copy, PartialEq, Eq, Structural)]
pub enum BinOp {
    Add,
    Sub,
    Mul,
    Div,
    Rem,
    And,
    Or,
    BitXor,
    BitAnd,
    BitOr,
    Shl,
    Shr,
    Eq,
    Lt,
    Le,
    Ne,
    Ge,
    Gt,
}

/// An operator with one operand.
#[derive(Debug, Clone, Copy, PartialEq, Eq, Structural)]
pub enum UnOp {
    Deref,
    Not,
    Neg,
}

/// The type definitions that a lint knows by name.
#[derive(Debug, Clone, Copy, PartialEq, Eq, Structural)]
pub enum KnownType {
    Option,
    String,
    HashMap,
    Mutex,
    RwLock,
    RefCell,
    Cell,
    UnsafeCell,
    LazyLock,
    OnceLock,
    Other,
}

/// The path of a definition and the name of the crate it belongs to.
#[derive(Debug)]
pub struct DefPath {
    pub crate_name: String,
    pub path: String,
}

/// The kinds of definitions that a lint tells apart.
#[derive(Debug, Clone, Copy, PartialEq, Eq, Structural)]
pub enum DefKind {
    Struct,
    Fn,
    Ctor,
    Other,
}

/// What is known of an associated item.
#[derive(Debug)]
pub struct Assoc {
    /// Whether it is a function.
    pub is_fn: bool,
    /// Whether it takes `self`.
    pub is_method: bool,
    /// Whether it belongs to a trait or to an impl of one.
    pub of_trait: bool,
    /// The item of the trait that it implements, else the item itself, unless
    /// that item could not be resolved.
    pub trait_item_or_self: Option<DefPath>,
}

/// A definition.
#[derive(Debug)]
pub struct Def {
    pub kind: DefKind,
    pub place: DefPath,
    pub name: String,
    /// Whether it belongs to the crate being compiled.
    pub is_local: bool,
    /// The definition of a type that it is, if it is one.
    pub known: KnownType,
    /// The names of the fields, for a struct.
    pub field_names: Vec<String>,
    pub assoc: Option<Assoc>,
    pub parent: Option<Box<Def>>,
}

/// What a path stands for.
#[derive(Debug)]
pub enum Res {
    /// A local variable, by its number.
    Local(usize),
    /// A definition.
    Def(Def),
    /// Anything else.
    Other,
}

/// The parts of the source that a lint points at.
#[derive(Debug)]
pub struct Span {
    /// The number of the span.
    pub id: usize,
    /// Whether a macro produced it.
    pub from_expansion: bool,
    /// Where it begins.
    pub start: utils::SpanStart,
}

impl Span {
    /// A copy of the span.
    pub fn copied(&self) -> (r: Span)
        ensures
            r == *self,
    {
        Span {
            id: self.id,
            from_expansion: self.from_expansion,
            start: utils::SpanStart {
                local_path: match &self.start.local_path {
                    Some(path) => Some(path.clone()),
                    None => None,
                },
                line: self.start.line,
                column: self.start.column,
            },
        }
    }
}

/// A type and the types it is made of, in their order.
#[derive(Debug)]
pub struct Ty {
    pub kind: TyKind,
    pub parts: Vec<Ty>,
}

/// The kinds of types that a lint tells apart.
#[derive(Debug)]
pub enum TyKind {
    /// `str`.
    Str,
    /// A reference to its one part.
    Ref,
    /// A struct, an enum or a union.
    Adt(Adt),
    /// Any other type.
    Other,
}

/// A struct, an enum or a union.
#[derive(Debug)]
pub struct Adt {
    pub known: KnownType,
    pub is_struct: bool,
    pub def: Def,
}

/// A literal.
#[derive(Debug)]
pub enum Lit {
    Int(u128),
    Float(String),
    Bool(bool),
    Str(String),
    Char(char),
    Other,
}

/// A pattern.
#[derive(Debug)]
pub enum Pat {
    Lit(Lit),
    Or(Vec<Pat>),
    /// A local variable by its number and name.
    Binding(usize, String),
    Other,
}

/// An expression.
#[derive(Debug)]
pub struct Expr {
    /// The number of the expression.
    pub id: usize,
    pub span: Span,
    pub ty: Ty,
    /// The definition that the type checker found for it.
    pub type_dependent: Option<Def>,
    pub kind: ExprKind,
}

/// A field in a struct expression.
#[derive(Debug)]
pub struct ExprField {
    pub name: String,
    pub expr: Expr,
}

/// An arm of a match.
#[derive(Debug)]
pub struct Arm {
    pub pat: Pat,
    pub guard: Option<Box<Expr>>,
    pub body: Box<Expr>,
}

/// A statement.
#[derive(Debug)]
pub enum Stmt {
    Expr(Expr),
    Semi(Expr),
    /// A `let` with its initial value.
    Let(Option<Expr>),
    /// A `let` with its initial value and its `else` block.
    LetElse(Expr, Expr),
    Item,
}

/// The kinds of expressions that a lint tells apart.
#[derive(Debug)]
pub enum ExprKind {
    Lit(Lit),
    /// A path; `resolved` if it does not depend on a type.
    Path { resolved: bool, res: Res },
    Binary(BinOp, Box<Expr>, Box<Expr>),
    Unary(UnOp, Box<Expr>),
    AddrOf(Box<Expr>),
    MethodCall { method: String, receiver: Box<Expr>, args: Vec<Expr> },
    Call { callee: Box<Expr>, args: Vec<Expr> },
    Field { base: Box<Expr>, name: String },
    Tup(Vec<Expr>),
    Cast(Box<Expr>),
    Block { stmts: Vec<Stmt>, tail: Option<Box<Expr>>, is_unsafe: bool },
    If { cond: Box<Expr>, then_branch: Box<Expr>, else_branch: Option<Box<Expr>> },
    /// A match; `is_normal` if it was written as one.
    Match { scrutinee: Box<Expr>, arms: Vec<Arm>, is_normal: bool },
    /// A struct expression; `has_base` if it does not set all fields itself, with the
    /// value that it takes the rest from, if one is written.
    Struct { res: Res, fields: Vec<ExprField>, has_base: bool, rest: Option<Box<Expr>> },
    Assign(Box<Expr>, Box<Expr>),
    /// Any other expression with the expressions right below it, such as a loop with
    /// its body.
    Other(Vec<Expr>),
}

/// A field of a struct definition.
#[derive(Debug)]
pub struct FieldDef {
    pub name: String,
    pub span: Span,
    pub is_public: bool,
    pub ty: Ty,
    /// The type as it is printed.
    pub ty_text: String,
    /// Whether dropping a value of the type does more than freeing memory.
    pub significant_drop: bool,
}

/// The fields of a struct definition.
#[derive(Debug)]
pub enum VariantData {
    Struct(Vec<FieldDef>),
    Tuple(Vec<FieldDef>),
    Unit,
}

/// The signature of a function.
#[derive(Debug)]
pub struct FnSig {
    /// The spans of the written parameter types, `self` among them.
    pub written: Vec<Span>,
    /// The types of the parameters, `self` among them.
    pub inputs: Vec<Ty>,
    /// The type of the result.
    pub output: Ty,
    /// Whether the function takes `self`.
    pub is_method: bool,
}

/// An item of a module that holds another one.
#[derive(Debug)]
pub struct InnerItem {
    /// Whether it is a `use` of one name.
    pub is_single_use: bool,
    pub is_public: bool,
}

/// The kinds of items that a lint tells apart.
#[derive(Debug)]
pub enum ItemKind {
    Fn(FnSig),
    Const,
    /// A static with its type.
    Static(Ty),
    TyAlias,
    Struct(VariantData),
    Enum,
    Union,
    Trait,
    Mod(Vec<InnerItem>),
    Other,
}

/// An item.
#[derive(Debug)]
pub struct Item {
    pub place: DefPath,
    pub span: Span,
    pub is_public: bool,
    /// Whether it has the layout of C.
    pub is_repr_c: bool,
    pub kind: ItemKind,
}

/// The kinds of items of a trait.
#[derive(Debug)]
pub enum TraitItemKind {
    Fn(FnSig),
    /// A constant with its type and its value, if the trait gives it one.
    Const(Ty, Option<Expr>),
    Type,
}

/// An item of a trait.
#[derive(Debug)]
pub struct TraitItem {
    pub place: DefPath,
    pub span: Span,
    pub kind: TraitItemKind,
}

/// The kinds of items of an impl.
#[derive(Debug)]
pub enum ImplItemKind {
    Fn(FnSig),
    /// A constant with its value.
    Const(Expr),
    Type,
}

/// The type that an impl is for.
#[derive(Debug)]
pub struct SelfType {
    pub is_local: bool,
    pub is_public: bool,
}

/// Where an item of an impl stands.
#[derive(Debug)]
pub enum ImplOwner {
    /// In no impl that is known.
    Unknown,
    /// In an impl of a trait.
    Trait,
    /// In an impl of a type alone, with the type if it is named by a path.
    Inherent(Option<SelfType>),
}

/// An item of an impl.
#[derive(Debug)]
pub struct ImplItem {
    pub place: DefPath,
    pub span: Span,
    pub is_public: bool,
    pub kind: ImplItemKind,
    pub owner: ImplOwner,
    /// The item of a trait that it implements, if that is known.
    pub implements: Option<DefPath>,
}

/// A parameter of a function.
#[derive(Debug)]
pub struct Param {
    pub pat: Pat,
    pub span: Span,
    /// The type as it is printed.
    pub ty_text: String,
    /// Whether dropping a value of the type does more than freeing memory.
    pub significant_drop: bool,
    /// Whether the compiler added it.
    pub compiler_generated: bool,
}

/// The body of a function.
#[derive(Debug)]
pub struct Body {
    pub params: Vec<Param>,
    pub value: Expr,
}

/// The key of the definition at `place`.
pub open spec fn key_at(place: DefPath) -> Seq<char> {
    utils::normalized(place.crate_name@, place.path@)
}

impl DefPath {
    /// The key of the definition.
    pub fn key(&self) -> (r: utils::DefKey)
        ensures
            r@ == key_at(*self),
    {
        utils::def_key(self.crate_name.as_str(), self.path.as_str())
    }
}

/// `expr` without the blocks around it that hold nothing else.
pub open spec fn unblocked(expr: Expr) -> Expr
    decreases expr,
{
    match expr.kind {
        ExprKind::Block { stmts, tail, .. } => match tail {
            Some(inner) => if stmts.len() == 0 {
                unblocked(*inner)
            } else {
                expr
            },
            None => expr,
        },
        _ => expr,
    }
}

/// Strips the blocks around `expr` that hold nothing else.
pub fn peel_blocks<'a>(expr: &'a Expr) -> (r: &'a Expr)
    ensures
        *r == unblocked(*expr),
    decreases expr,
{
    match &expr.kind {
        ExprKind::Block { stmts, tail, .. } => {
            if stmts.len() > 0 {
                return expr;
            }
            match tail {
                Some(inner) => peel_blocks(inner),
                None => expr,
            }
        },
        _ => expr,
    }
}

/// `expr` without the borrows and dereferences around it.
pub open spec fn unborrowed(expr: Expr) -> Expr
    decreases expr,
{
    match expr.kind {
        ExprKind::AddrOf(inner) => unborrowed(*inner),
        ExprKind::Unary(UnOp::Deref, inner) => unborrowed(*inner),
        _ => expr,
    }
}

/// Strips `&`, `&mut` and `*` from `expr`.
pub fn peel_borrows<'a>(expr: &'a Expr) -> (r: &'a Expr)
    ensures
        *r == unborrowed(*expr),
    decreases expr,
{
    match &expr.kind {
        ExprKind::AddrOf(inner) => peel_borrows(inner),
        ExprKind::Unary(UnOp::Deref, inner) => peel_borrows(inner),
        _ => expr,
    }
}

/// The local variable that an expression is.
pub open spec fn local_of(expr: Expr) -> Option<usize> {
    match expr.kind {
        ExprKind::Path { resolved: true, res: Res::Local(number) } => Some(number),
        _ => None,
    }
}

impl Expr {
    /// The local variable that the expression is.
    pub fn local(&self) -> (r: Option<usize>)
        ensures
            r == local_of(*self),
    {
        match &self.kind {
            ExprKind::Path { resolved, res } => {
                if !*resolved {
                    return None;
                }
                match res {
                    Res::Local(number) => Some(*number),
                    _ => None,
                }
            },
            _ => None,
        }
    }
}

/// `ty` without the references around it.
pub open spec fn unreferenced(ty: Ty) -> Ty
    decreases ty,
{
    if ty.kind is Ref && ty.parts.len() > 0 {
        unreferenced(ty.parts@[0])
    } else {
        ty
    }
}

/// Strips the references around `ty`.
pub fn peel_refs<'a>(ty: &'a Ty) -> (r: &'a Ty)
    ensures
        *r == unreferenced(*ty),
    decreases ty,
{
    match ty.kind {
        TyKind::Ref => {
            if ty.parts.len() > 0 {
                proof {
                    assert(decreases_to!(*ty => ty.parts@[0]));
                }
                peel_refs(&ty.parts[0])
            } else {
                ty
            }
        },
        _ => ty,
    }
}

/// Whether `ty` is the known type `known`.
pub open spec fn is_known(ty: Ty, known: KnownType) -> bool {
    match ty.kind {
        TyKind::Adt(adt) => adt.known == known,
        _ => false,
    }
}

impl Ty {
    /// Whether the type is the known type `known`.
    pub fn is_item(&self, known: KnownType) -> (b: bool)
        ensures
            b == is_known(*self, known),
    {
        match &self.kind {
            TyKind::Adt(adt) => adt.known == known,
            _ => false,
        }
    }

    /// Whether the type is `str` or `String`.
    pub fn is_text(&self) -> (b: bool)
        ensures
            b == is_text_type(*self),
    {
        match &self.kind {
            TyKind::Str => true,
            TyKind::Adt(adt) => adt.known == KnownType::String,
            _ => false,
        }
    }
}

/// Whether `ty` is `str` or `String`.
pub open spec fn is_text_type(ty: Ty) -> bool {
    ty.kind is Str || is_known(ty, KnownType::String)
}

/// The largest number that a count can reach.
pub open spec fn capped(n: nat) -> nat {
    if n > usize::MAX {
        usize::MAX as nat
    } else {
        n
    }
}

/// `a + b`, or the largest number if that is more.
pub fn capped_sum(a: usize, b: usize) -> (r: usize)
    ensures
        r == capped((a + b) as nat),
{
    if a > usize::MAX - b {
        usize::MAX
    } else {
        a + b
    }
}

/// A warning or note of a lint.
#[derive(Debug)]
pub struct Diagnostic {
    /// The number of the span that it points at.
    pub span: usize,
    pub message: String,
    /// What to do about it.
    pub advice: String,
}

/// The values of a diagnostic.
pub ghost struct DiagnosticText {
    pub span: usize,
    pub message: Seq<char>,
    pub advice: Seq<char>,
}

impl View for Diagnostic {
    type V = DiagnosticText;

    open spec fn view(&self) -> DiagnosticText {
        DiagnosticText { span: self.span, message: self.message@, advice: self.advice@ }
    }
}

/// A function, a method or a closure.
#[derive(Debug)]
pub enum FnKind {
    ItemFn(String),
    Method(String),
    Closure,
}

/// How a function is named in a message.
pub open spec fn fn_title(kind: FnKind) -> Seq<char> {
    match kind {
        FnKind::ItemFn(name) => "function `"@ + name@ + "`"@,
        FnKind::Method(name) => "method `"@ + name@ + "`"@,
        FnKind::Closure => "closure"@,
    }
}

/// The name of a function in a message.
pub fn fn_kind_name(kind: &FnKind) -> (r: String)
    ensures
        r@ == fn_title(*kind),
{
    match kind {
        FnKind::ItemFn(name) => {
            let mut title = "function `".to_owned();
            title.append(name.as_str());
            title.append("`");
            title
        },
        FnKind::Method(name) => {
            let mut title = "method `".to_owned();
            title.append(name.as_str());
            title.append("`");
            title
        },
        FnKind::Closure => "closure".to_owned(),
    }
}

/// Whether an expression is a block around another one that holds nothing else.
pub open spec fn is_bare_block(expr: Expr) -> bool {
    expr.kind matches ExprKind::Block { stmts, tail, .. } && stmts.len() == 0 && tail is Some
}

/// What is left without the bare blocks is no bare block; a bare block around an
/// expression makes no difference, and what is none stays as it is.
pub proof fn lemma_unblocked(expr: Expr)
    ensures
        !is_bare_block(unblocked(expr)),
        !is_bare_block(expr) ==> unblocked(expr) == expr,
        is_bare_block(expr) ==> unblocked(expr) == unblocked(
            *expr.kind->Block_tail->Some_0,
        ),
    decreases expr,
{
    if let ExprKind::Block { stmts, tail, .. } = expr.kind {
        if let Some(inner) = tail {
            if stmts.len() == 0 {
                lemma_unblocked(*inner);
            }
        }
    }
}

/// What is left without the borrows is neither a borrow nor a dereference; one around an
/// expression makes no difference, and what is neither stays as it is.
pub proof fn lemma_unborrowed(expr: Expr)
    ensures
        !(unborrowed(expr).kind is AddrOf),
        unborrowed(expr).kind matches ExprKind::Unary(op, _) ==> op != UnOp::Deref,
        expr.kind matches ExprKind::AddrOf(inner) ==> unborrowed(expr) == unborrowed(*inner),
        expr.kind matches ExprKind::Unary(op, inner) ==> unborrowed(expr) == if op == UnOp::Deref {
            unborrowed(*inner)
        } else {
            expr
        },
        !(expr.kind is AddrOf) && !(expr.kind is Unary) ==> unborrowed(expr) == expr,
    decreases expr,
{
    match expr.kind {
        ExprKind::AddrOf(inner) => {
            lemma_unborrowed(*inner);
        },
        ExprKind::Unary(UnOp::Deref, inner) => {
            lemma_unborrowed(*inner);
        },
        _ => {},
    }
}

/// What is left without the references is no reference to a type; a reference to a type
/// makes no difference, and what is none stays as it is.
pub proof fn lemma_unreferenced(ty: Ty)
    ensures
        unreferenced(ty).kind is Ref ==> unreferenced(ty).parts.len() == 0,
        !(ty.kind is Ref) ==> unreferenced(ty) == ty,
        ty.kind is Ref && ty.parts.len() > 0 ==> unreferenced(ty) == unreferenced(ty.parts@[0]),
    decreases ty,
{
    if ty.kind is Ref && ty.parts.len() > 0 {
        assert(decreases_to!(ty => ty.parts@[0]));
        lemma_unreferenced(ty.parts@[0]);
    }
}

/// A type is at most one of the known types, and it is text exactly if it is `str` or the
/// known string type.
pub proof fn lemma_known_types(ty: Ty, a: KnownType, b: KnownType)
    ensures
        is_known(ty, a) && is_known(ty, b) ==> a == b,
        ty.kind is Adt <==> is_known(ty, ty.kind->Adt_0.known) && ty.kind is Adt,
        ty.kind matches TyKind::Adt(adt) ==> is_known(ty, adt.known),
        is_text_type(ty) <==> (match ty.kind {
            TyKind::Str => true,
            TyKind::Adt(adt) => adt.known == KnownType::String,
            _ => false,
        }),
{
}

/// A count is what was counted as long as a number can hold that.
pub proof fn lemma_capped(n: nat, m: nat)
    ensures
        n <= usize::MAX ==> capped(n) == n,
        capped(n) <= usize::MAX,
        n <= m ==> capped(n) <= capped(m),
{
}

/// A function and a method are named by what they are and their own name; a closure has
/// none.
pub proof fn lemma_fn_titles(name: String)
    ensures
        fn_title(FnKind::ItemFn(name)).subrange(10, 10 + name@.len() as int) == name@,
        fn_title(FnKind::Method(name)).subrange(8, 8 + name@.len() as int) == name@,
        fn_title(FnKind::ItemFn(name)).len() == name@.len() + 11,
        fn_title(FnKind::Method(name)).len() == name@.len() + 9,
{
    reveal_strlit("function `");
    reveal_strlit("method `");
    reveal_strlit("`");
    assert(fn_title(FnKind::ItemFn(name)).subrange(10, 10 + name@.len() as int) =~= name@);
    assert(fn_title(FnKind::Method(name)).subrange(8, 8 + name@.len() as int) =~= name@);
}

} // verus!
