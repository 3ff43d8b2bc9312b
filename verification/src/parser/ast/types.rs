//! TypeScript AST node kinds: statements, expressions, declarations, patterns, types
//! and literals.

use vstd::prelude::*;

verus! {

/// What an AST node is, by syntactic role.
#[derive(Clone, Debug, PartialEq)]
pub enum NodeKind {
    /// Block statement: `{ stmt1; stmt2; }`
    Block { statements: Vec<NodeId> },
    /// Expression statement: `expr;`
    ExpressionStatement { expression: NodeId },
    /// If statement
    If { condition: NodeId, then_statement: NodeId, else_statement: Option<NodeId> },
    /// For statement
    For {
        initializer: Option<NodeId>,
        condition: Option<NodeId>,
        increment: Option<NodeId>,
        body: NodeId,
    },
    /// For-of statement
    ForOf { variable: NodeId, iterable: NodeId, body: NodeId },
    /// While statement
    While { condition: NodeId, body: NodeId },
    /// Do-while statement
    DoWhile { body: NodeId, condition: NodeId },
    /// Return statement
    Return { value: Option<NodeId> },
    /// Break statement
    Break { label: Option<String> },
    /// Continue statement
    Continue { label: Option<String> },
    /// Switch statement
    Switch { expression: NodeId, cases: Vec<SwitchCase> },
    /// Try-catch-finally statement
    Try { try_block: NodeId, catch_clause: Option<CatchClause>, finally_block: Option<NodeId> },
    /// Throw statement
    Throw { expression: NodeId },
    /// Variable statement: `let x = 1, y = 2;`
    VariableStatement { declarations: Vec<VariableDeclaration> },
    /// Identifier
    Identifier { name: String },
    /// Literal value
    Literal(Literal),
    /// Array literal
    Array { elements: Vec<ArrayElement> },
    /// Object literal
    Object { properties: Vec<ObjectProperty> },
    /// Binary expression
    Binary { operator: BinaryOperator, left: NodeId, right: NodeId },
    /// Unary expression
    Unary { operator: UnaryOperator, operand: NodeId },
    /// Assignment
    Assignment { operator: AssignmentOperator, target: NodeId, value: NodeId },
    /// Conditional expression: `a ? b : c`
    Conditional { test: NodeId, consequent: NodeId, alternate: NodeId },
    /// Function call
    Call { callee: NodeId, arguments: Vec<NodeId> },
    /// Member access
    Member { object: NodeId, property: MemberProperty },
    /// New expression
    New { callee: NodeId, arguments: Vec<NodeId> },
    /// Arrow function
    ArrowFunction { params: Vec<Parameter>, return_type: Option<TypeAnnotation>, body: NodeId },
    /// Function expression
    FunctionExpression {
        name: Option<String>,
        params: Vec<Parameter>,
        return_type: Option<TypeAnnotation>,
        body: NodeId,
    },
    /// `this`
    This,
    /// `super`
    Super,
    /// Template literal
    Template { parts: Vec<TemplatePart> },
    /// Sequence expression
    Sequence { expressions: Vec<NodeId> },
    /// Function declaration
    FunctionDeclaration {
        name: String,
        params: Vec<Parameter>,
        return_type: Option<TypeAnnotation>,
        body: NodeId,
    },
    /// Class declaration
    ClassDeclaration { name: String, extends: Option<NodeId>, members: Vec<ClassMember> },
    /// Interface declaration
    InterfaceDeclaration { name: String, extends: Vec<NodeId>, body: Vec<NodeId> },
    /// Type alias declaration
    TypeAliasDeclaration {
        name: String,
        type_params: Option<Vec<TypeParameter>>,
        type_annotation: TypeAnnotation,
    },
    /// Enum declaration
    EnumDeclaration { name: String, members: Vec<EnumMember> },
    /// Import declaration
    ImportDeclaration { specifiers: Vec<ImportSpecifier>, source: String },
    /// Export declaration
    ExportDeclaration { specifiers: Vec<ExportSpecifier> },
    /// Object pattern
    ObjectPattern { properties: Vec<PatternProperty> },
    /// Array pattern
    ArrayPattern { elements: Vec<PatternElement> },
    /// Rest pattern
    RestPattern { argument: NodeId },
    /// Named type reference
    TypeReference { name: String, type_params: Option<Vec<TypeAnnotation>> },
    /// Array type
    ArrayType { element_type: Box<TypeAnnotation> },
    /// Union type
    UnionType { types: Vec<TypeAnnotation> },
    /// Intersection type
    IntersectionType { types: Vec<TypeAnnotation> },
    /// Tuple type
    TupleType { elements: Vec<TypeAnnotation> },
    /// Function type
    FunctionType { params: Vec<Parameter>, return_type: Box<TypeAnnotation> },
    /// Generic type parameter
    TypeParameter { name: String, constraint: Option<TypeAnnotation>, default: Option<TypeAnnotation> },
    /// Type annotation
    TypeAnnotation { type_annotation: Box<TypeAnnotation> },
    /// Source file
    SourceFile { statements: Vec<NodeId> },
    /// Module declaration
    ModuleDeclaration { name: String, body: Vec<NodeId> },
}

/// Binary operators.
#[derive(Clone, Copy, Debug, PartialEq, Eq, Hash, Structural)]
pub enum BinaryOperator {
    /// `+`
    Add,
    /// `-`
    Subtract,
    /// `*`
    Multiply,
    /// `/`
    Divide,
    /// `%`
    Modulo,
    /// `**`
    Exponent,
    /// `&`
    BitwiseAnd,
    /// `|`
    BitwiseOr,
    /// `^`
    BitwiseXor,
    /// `<<`
    LeftShift,
    /// `>>`
    RightShift,
    /// `>>>`
    UnsignedRightShift,
    /// `==`
    Equal,
    /// `===`
    StrictEqual,
    /// `!=`
    NotEqual,
    /// `!==`
    NotStrictEqual,
    /// `<`
    LessThan,
    /// `<=`
    LessThanOrEqual,
    /// `>`
    GreaterThan,
    /// `>=`
    GreaterThanOrEqual,
    /// `&&`
    LogicalAnd,
    /// `||`
    LogicalOr,
    /// `??`
    NullishCoalescing,
}

/// Source text of a binary operator.
pub open spec fn binary_operator_text(op: BinaryOperator) -> Seq<char> {
    match op {
        BinaryOperator::Add => "+"@,
        BinaryOperator::Subtract => "-"@,
        BinaryOperator::Multiply => "*"@,
        BinaryOperator::Divide => "/"@,
        BinaryOperator::Modulo => "%"@,
        BinaryOperator::Exponent => "**"@,
        BinaryOperator::BitwiseAnd => "&"@,
        BinaryOperator::BitwiseOr => "|"@,
        BinaryOperator::BitwiseXor => "^"@,
        BinaryOperator::LeftShift => "<<"@,
        BinaryOperator::RightShift => ">>"@,
        BinaryOperator::UnsignedRightShift => ">>>"@,
        BinaryOperator::Equal => "=="@,
        BinaryOperator::StrictEqual => "==="@,
        BinaryOperator::NotEqual => "!="@,
        BinaryOperator::NotStrictEqual => "!=="@,
        BinaryOperator::LessThan => "<"@,
        BinaryOperator::LessThanOrEqual => "<="@,
        BinaryOperator::GreaterThan => ">"@,
        BinaryOperator::GreaterThanOrEqual => ">="@,
        BinaryOperator::LogicalAnd => "&&"@,
        BinaryOperator::LogicalOr => "||"@,
        BinaryOperator::NullishCoalescing => "??"@,
    }
}

impl BinaryOperator {
    /// The operator as it is written in source.
    pub fn as_str(&self) -> (r: &'static str)
        ensures
            r@ == binary_operator_text(*self),
    {
        match self {
            BinaryOperator::Add => "+",
            BinaryOperator::Subtract => "-",
            BinaryOperator::Multiply => "*",
            BinaryOperator::Divide => "/",
            BinaryOperator::Modulo => "%",
            BinaryOperator::Exponent => "**",
            BinaryOperator::BitwiseAnd => "&",
            BinaryOperator::BitwiseOr => "|",
            BinaryOperator::BitwiseXor => "^",
            BinaryOperator::LeftShift => "<<",
            BinaryOperator::RightShift => ">>",
            BinaryOperator::UnsignedRightShift => ">>>",
            BinaryOperator::Equal => "==",
            BinaryOperator::StrictEqual => "===",
            BinaryOperator::NotEqual => "!=",
            BinaryOperator::NotStrictEqual => "!==",
            BinaryOperator::LessThan => "<",
            BinaryOperator::LessThanOrEqual => "<=",
            BinaryOperator::GreaterThan => ">",
            BinaryOperator::GreaterThanOrEqual => ">=",
            BinaryOperator::LogicalAnd => "&&",
            BinaryOperator::LogicalOr => "||",
            BinaryOperator::NullishCoalescing => "??",
        }
    }

    /// The operator as it is written in source, as an owned string.
    pub fn to_string(&self) -> (r: String)
        ensures
            r@ == binary_operator_text(*self),
    {
        self.as_str().to_owned()
    }
}

/// Unary operators.
#[derive(Clone, Copy, Debug, PartialEq, Eq, Hash, Structural)]
pub enum UnaryOperator {
    /// `-x`
    Minus,
    /// `+x`
    Plus,
    /// `!x`
    LogicalNot,
    /// `~x`
    BitwiseNot,
    /// `++x`
    IncrementPrefix,
    /// `x++`
    IncrementPostfix,
    /// `--x`
    DecrementPrefix,
    /// `x--`
    DecrementPostfix,
    /// `typeof x`
    Typeof,
    /// `void x`
    Void,
    /// `delete x`
    Delete,
}

/// Source text of a unary operator (prefix and postfix forms print alike).
pub open spec fn unary_operator_text(op: UnaryOperator) -> Seq<char> {
    match op {
        UnaryOperator::Minus => "-"@,
        UnaryOperator::Plus => "+"@,
        UnaryOperator::LogicalNot => "!"@,
        UnaryOperator::BitwiseNot => "~"@,
        UnaryOperator::IncrementPrefix => "++"@,
        UnaryOperator::IncrementPostfix => "++"@,
        UnaryOperator::DecrementPrefix => "--"@,
        UnaryOperator::DecrementPostfix => "--"@,
        UnaryOperator::Typeof => "typeof"@,
        UnaryOperator::Void => "void"@,
        UnaryOperator::Delete => "delete"@,
    }
}

impl UnaryOperator {
    /// The operator as it is written in source.
    pub fn as_str(&self) -> (r: &'static str)
        ensures
            r@ == unary_operator_text(*self),
    {
        match self {
            UnaryOperator::Minus => "-",
            UnaryOperator::Plus => "+",
            UnaryOperator::LogicalNot => "!",
            UnaryOperator::BitwiseNot => "~",
            UnaryOperator::IncrementPrefix => "++",
            UnaryOperator::IncrementPostfix => "++",
            UnaryOperator::DecrementPrefix => "--",
            UnaryOperator::DecrementPostfix => "--",
            UnaryOperator::Typeof => "typeof",
            UnaryOperator::Void => "void",
            UnaryOperator::Delete => "delete",
        }
    }

    /// The operator as it is written in source, as an owned string.
    pub fn to_string(&self) -> (r: String)
        ensures
            r@ == unary_operator_text(*self),
    {
        self.as_str().to_owned()
    }
}

/// Assignment operators.
#[derive(Clone, Copy, Debug, PartialEq, Eq, Hash, Structural)]
pub enum AssignmentOperator {
    /// `=`
    Assign,
    /// `+=`
    AddAssign,
    /// `-=`
    SubtractAssign,
    /// `*=`
    MultiplyAssign,
    /// `/=`
    DivideAssign,
    /// `%=`
    ModuloAssign,
    /// `<<=`
    LeftShiftAssign,
    /// `>>=`
    RightShiftAssign,
    /// `>>>=`
    UnsignedRightShiftAssign,
    /// `&=`
    BitwiseAndAssign,
    /// `|=`
    BitwiseOrAssign,
    /// `^=`
    BitwiseXorAssign,
    /// `**=`
    ExponentAssign,
}

/// Source text of an assignment operator.
pub open spec fn assignment_operator_text(op: AssignmentOperator) -> Seq<char> {
    match op {
        AssignmentOperator::Assign => "="@,
        AssignmentOperator::AddAssign => "+="@,
        AssignmentOperator::SubtractAssign => "-="@,
        AssignmentOperator::MultiplyAssign => "*="@,
        AssignmentOperator::DivideAssign => "/="@,
        AssignmentOperator::ModuloAssign => "%="@,
        AssignmentOperator::LeftShiftAssign => "<<="@,
        AssignmentOperator::RightShiftAssign => ">>="@,
        AssignmentOperator::UnsignedRightShiftAssign => ">>>="@,
        AssignmentOperator::BitwiseAndAssign => "&="@,
        AssignmentOperator::BitwiseOrAssign => "|="@,
        AssignmentOperator::BitwiseXorAssign => "^="@,
        AssignmentOperator::ExponentAssign => "**="@,
    }
}

impl AssignmentOperator {
    /// The operator as it is written in source.
    pub fn as_str(&self) -> (r: &'static str)
        ensures
            r@ == assignment_operator_text(*self),
    {
        match self {
            AssignmentOperator::Assign => "=",
            AssignmentOperator::AddAssign => "+=",
            AssignmentOperator::SubtractAssign => "-=",
            AssignmentOperator::MultiplyAssign => "*=",
            AssignmentOperator::DivideAssign => "/=",
            AssignmentOperator::ModuloAssign => "%=",
            AssignmentOperator::LeftShiftAssign => "<<=",
            AssignmentOperator::RightShiftAssign => ">>=",
            AssignmentOperator::UnsignedRightShiftAssign => ">>>=",
            AssignmentOperator::BitwiseAndAssign => "&=",
            AssignmentOperator::BitwiseOrAssign => "|=",
            AssignmentOperator::BitwiseXorAssign => "^=",
            AssignmentOperator::ExponentAssign => "**=",
        }
    }

    /// The operator as it is written in source, as an owned string.
    pub fn to_string(&self) -> (r: String)
        ensures
            r@ == assignment_operator_text(*self),
    {
        self.as_str().to_owned()
    }
}

/// Literal values. A number is held by its IEEE-754 bit pattern.
#[derive(Clone, Debug, PartialEq)]
pub enum Literal {
    /// String literal
    String(String),
    /// Number literal, as the bits of an `f64`
    Number(u64),
    /// Boolean literal
    Boolean(bool),
    /// `null`
    Null,
    /// `undefined`
    Undefined,
    /// BigInt literal, as written
    BigInt(String),
}

/// Identifier of a node in an AST arena.
#[derive(Clone, Copy, Debug, PartialEq, Eq, Hash, Structural)]
pub struct NodeId {
    index: u32,
}

impl NodeId {
    /// The id with the given index.
    pub fn new(index: u32) -> (r: NodeId)
        ensures
            r.spec_index() == index,
    {
        NodeId { index }
    }

    /// The index of the id.
    pub closed spec fn spec_index(self) -> u32 {
        self.index
    }

    /// The index of the id.
    pub fn index(self) -> (r: u32)
        ensures
            r == self.spec_index(),
    {
        self.index
    }
}

impl From<u32> for NodeId {
    fn from(index: u32) -> (r: NodeId) {
        NodeId { index }
    }
}

impl vstd::std_specs::convert::FromSpecImpl<u32> for NodeId {
    open spec fn obeys_from_spec() -> bool {
        true
    }

    open spec fn from_spec(index: u32) -> NodeId {
        node_id_of(index)
    }
}

/// The node id with the given index.
pub closed spec fn node_id_of(index: u32) -> NodeId {
    NodeId { index }
}

/// The id built from an index has that index.
pub proof fn lemma_node_id_of(index: u32)
    ensures
        node_id_of(index).spec_index() == index,
{
}

/// Function parameter.
#[derive(Debug, PartialEq)]
pub struct Parameter {
    pub name: String,
    pub type_annotation: Option<TypeAnnotation>,
    pub default_value: Option<NodeId>,
    pub is_rest: bool,
}

/// Variable declaration.
#[derive(Clone, Debug, PartialEq)]
pub struct VariableDeclaration {
    pub name: String,
    pub kind: VariableKind,
    pub initializer: Option<NodeId>,
    pub type_annotation: Option<TypeAnnotation>,
}

/// Variable declaration kind.
#[derive(Clone, Copy, Debug, PartialEq, Eq, Structural)]
pub enum VariableKind {
    /// `let`
    Let,
    /// `const`
    Const,
    /// `var`
    Var,
}

/// Type parameter declaration.
#[derive(Clone, Debug, PartialEq)]
pub struct TypeParameter {
    pub name: String,
    pub constraint: Option<TypeAnnotation>,
    pub default: Option<TypeAnnotation>,
}

/// Type annotation.
#[derive(Debug, PartialEq)]
pub enum TypeAnnotation {
    /// Simple type reference
    TypeReference { name: String, type_params: Option<Vec<TypeAnnotation>> },
    /// Array type
    ArrayType(Box<TypeAnnotation>),
    /// Union type
    UnionType(Vec<TypeAnnotation>),
    /// Function type
    FunctionType { params: Vec<Parameter>, return_type: Box<TypeAnnotation> },
    /// Unknown type
    Unknown,
}

/// Whether two type annotations are alike in every part: the same variant, equal names,
/// identifiers and flags, and lists of equal length whose items are alike one by one.
pub open spec fn same_annotation(a: TypeAnnotation, b: TypeAnnotation) -> bool
    decreases a,
{
    match a {
        TypeAnnotation::TypeReference { name, type_params } => match b {
            TypeAnnotation::TypeReference { name: name2, type_params: type_params2 } => {
                &&& name == name2
                &&& match type_params {
                    None => type_params2 is None,
                    Some(v) => match type_params2 {
                        None => false,
                        Some(w) => same_annotations(v@, w@),
                    },
                }
            },
            _ => false,
        },
        TypeAnnotation::ArrayType(e) => match b {
            TypeAnnotation::ArrayType(e2) => same_annotation(*e, *e2),
            _ => false,
        },
        TypeAnnotation::UnionType(v) => match b {
            TypeAnnotation::UnionType(w) => same_annotations(v@, w@),
            _ => false,
        },
        TypeAnnotation::FunctionType { params, return_type } => match b {
            TypeAnnotation::FunctionType { params: params2, return_type: return_type2 } => {
                &&& params@.len() == params2@.len()
                &&& forall|i: int|
                    0 <= i < params@.len() ==> same_parameter(#[trigger] params@[i], params2@[i])
                &&& same_annotation(*return_type, *return_type2)
            },
            _ => false,
        },
        TypeAnnotation::Unknown => b is Unknown,
    }
}

/// Whether two lists of type annotations have the same length and are alike item by item.
pub open spec fn same_annotations(v: Seq<TypeAnnotation>, w: Seq<TypeAnnotation>) -> bool
    decreases v,
{
    &&& v.len() == w.len()
    &&& forall|i: int| 0 <= i < v.len() ==> same_annotation(#[trigger] v[i], w[i])
}

/// Whether two parameters are alike in every part: equal names, default values and rest
/// flags, and annotations that are both absent or alike.
pub open spec fn same_parameter(p: Parameter, q: Parameter) -> bool
    decreases p,
{
    &&& p.name == q.name
    &&& p.default_value == q.default_value
    &&& p.is_rest == q.is_rest
    &&& match p.type_annotation {
        None => q.type_annotation is None,
        Some(a) => q.type_annotation matches Some(b) && same_annotation(a, b),
    }
}

/// A copy of a type annotation.
fn copy_annotation(a: &TypeAnnotation) -> (r: TypeAnnotation)
    ensures
        same_annotation(*a, r),
    decreases a,
{
    match a {
        TypeAnnotation::TypeReference { name, type_params } => {
            let type_params = match type_params {
                None => None,
                Some(v) => Some(copy_annotations(v)),
            };
            TypeAnnotation::TypeReference { name: name.clone(), type_params }
        },
        TypeAnnotation::ArrayType(e) => TypeAnnotation::ArrayType(Box::new(copy_annotation(e))),
        TypeAnnotation::UnionType(v) => TypeAnnotation::UnionType(copy_annotations(v)),
        TypeAnnotation::FunctionType { params, return_type } => {
            let params = copy_parameters(params);
            TypeAnnotation::FunctionType {
                params,
                return_type: Box::new(copy_annotation(return_type)),
            }
        },
        TypeAnnotation::Unknown => TypeAnnotation::Unknown,
    }
}

/// A copy of a list of type annotations.
fn copy_annotations(v: &Vec<TypeAnnotation>) -> (r: Vec<TypeAnnotation>)
    ensures
        same_annotations(v@, r@),
    decreases v,
{
    let mut r: Vec<TypeAnnotation> = Vec::new();
    let mut i: usize = 0;
    while i < v.len()
        invariant
            i <= v@.len(),
            r@.len() == i,
            forall|j: int| 0 <= j < i ==> same_annotation(#[trigger] v@[j], r@[j]),
        decreases v@.len() - i,
    {
        proof {
            assert(decreases_to!(v => v@[i as int]));
        }
        r.push(copy_annotation(&v[i]));
        i = i + 1;
    }
    r
}

/// A copy of a parameter.
fn copy_parameter(p: &Parameter) -> (r: Parameter)
    ensures
        same_parameter(*p, r),
    decreases p,
{
    let type_annotation = match &p.type_annotation {
        None => None,
        Some(a) => Some(copy_annotation(a)),
    };
    Parameter {
        name: p.name.clone(),
        type_annotation,
        default_value: p.default_value,
        is_rest: p.is_rest,
    }
}

/// A copy of a list of parameters.
fn copy_parameters(v: &Vec<Parameter>) -> (r: Vec<Parameter>)
    ensures
        r@.len() == v@.len(),
        forall|i: int| 0 <= i < v@.len() ==> same_parameter(#[trigger] v@[i], r@[i]),
    decreases v,
{
    let mut r: Vec<Parameter> = Vec::new();
    let mut i: usize = 0;
    while i < v.len()
        invariant
            i <= v@.len(),
            r@.len() == i,
            forall|j: int| 0 <= j < i ==> same_parameter(#[trigger] v@[j], r@[j]),
        decreases v@.len() - i,
    {
        proof {
            assert(decreases_to!(v => v@[i as int]));
        }
        r.push(copy_parameter(&v[i]));
        i = i + 1;
    }
    r
}

impl Clone for TypeAnnotation {
    fn clone(&self) -> (r: Self) {
        copy_annotation(self)
    }
}

impl Clone for Parameter {
    fn clone(&self) -> (r: Self) {
        copy_parameter(self)
    }
}

/// Array element (expression or spread).
#[derive(Clone, Debug, PartialEq)]
pub enum ArrayElement {
    /// Regular element
    Element(NodeId),
    /// Spread element: `...expr`
    Spread(NodeId),
}

/// Object property.
#[derive(Clone, Debug, PartialEq)]
pub struct ObjectProperty {
    pub key: PropertyKey,
    pub value: NodeId,
    pub is_shorthand: bool,
}

/// Property key. A number key is held by its IEEE-754 bit pattern.
#[derive(Clone, Debug, PartialEq)]
pub enum PropertyKey {
    /// Identifier key
    Identifier(String),
    /// String literal key
    String(String),
    /// Number literal key, as the bits of an `f64`
    Number(u64),
    /// Computed key: `[expr]`
    Computed(NodeId),
}

/// Member property access.
#[derive(Clone, Debug, PartialEq)]
pub enum MemberProperty {
    /// `obj.prop`
    Identifier(String),
    /// `obj[expr]`
    Computed(NodeId),
}

/// Switch case; the default case has no test.
#[derive(Clone, Debug, PartialEq)]
pub struct SwitchCase {
    pub test: Option<NodeId>,
    pub consequent: Vec<NodeId>,
}

/// Catch clause.
#[derive(Clone, Debug, PartialEq)]
pub struct CatchClause {
    pub variable: Option<NodeId>,
    pub body: NodeId,
}

/// Class member.
#[derive(Clone, Debug, PartialEq)]
pub enum ClassMember {
    /// Property declaration
    Property {
        name: String,
        value: Option<NodeId>,
        type_annotation: Option<TypeAnnotation>,
        is_static: bool,
        is_readonly: bool,
    },
    /// Method declaration
    Method {
        name: String,
        params: Vec<Parameter>,
        return_type: Option<TypeAnnotation>,
        body: NodeId,
        is_static: bool,
    },
    /// Constructor
    Constructor { params: Vec<Parameter>, body: NodeId },
    /// Get accessor
    Getter { name: String, return_type: Option<TypeAnnotation>, body: NodeId },
    /// Set accessor
    Setter { name: String, params: Vec<Parameter>, body: NodeId },
}

/// Import specifier.
#[derive(Clone, Debug, PartialEq)]
pub enum ImportSpecifier {
    /// `import { x } from 'mod'`
    Named { name: String, alias: Option<String> },
    /// `import * as x from 'mod'`
    Namespace(String),
    /// `import x from 'mod'`
    Default(String),
}

/// Export specifier.
#[derive(Clone, Debug, PartialEq)]
pub enum ExportSpecifier {
    /// `export { x }`
    Named { name: String, alias: Option<String> },
    /// `export default value`
    Default(NodeId),
}

/// Enum member.
#[derive(Clone, Debug, PartialEq)]
pub struct EnumMember {
    pub name: String,
    pub value: Option<Literal>,
}

/// Template literal part.
#[derive(Clone, Debug, PartialEq)]
pub enum TemplatePart {
    /// Static text
    Static(String),
    /// `${expr}`
    Expression(NodeId),
}

/// Pattern property.
#[derive(Clone, Debug, PartialEq)]
pub struct PatternProperty {
    pub key: PropertyKey,
    pub pattern: NodeId,
    pub is_shorthand: bool,
}

/// Pattern element.
#[derive(Clone, Debug, PartialEq)]
pub enum PatternElement {
    /// Regular pattern (a hole when absent)
    Pattern(Option<NodeId>),
    /// Rest pattern: `...rest`
    Rest(NodeId),
}

} // verus!
