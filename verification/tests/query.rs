//! Binding, lowering, execution and projection of queries.

use pggraph::edge_store::{EdgeStore, RawEdge};
use pggraph::gql::ast::{
    AggregateArg, AggregateFunc, CmpOp, CreateClause, CreateQuery, DeleteClause, DeleteQuery,
    DetachDeleteQuery, Direction, Expr, Ident, Literal, LiteralValue, MatchClause, MergeClause,
    MergeQuery, NodePat, Operand, Pattern, PropertyTarget, Query, RelPat, RemoveClause,
    RemoveQuery, RemoveTarget, ReturnClause, ReturnExpr, ReturnItem, SetClause, SetQuery, SortItem,
    SortKey, Statement, VarLen, WithClause,
};
use pggraph::gql::errors::{GqlErrorKind, Span};
use pggraph::projection::tx_delta::{self, TxState};
use pggraph::query::aggregate::SumInput;
use pggraph::query::catalog_snapshot::{FakeCatalog, MappedEdgeSpec};
use pggraph::query::engine::{Engine, TableMembership, TenantMembership};
use pggraph::query::execute;
use pggraph::query::execute_join::execute_join;
use pggraph::query::execute_wildcard::execute_wildcard_path;
use pggraph::query::explain::{explain, explain_node_scan};
use pggraph::query::hydrate::{HydratedRows, QueryParams};
use pggraph::query::json::{Json, JsonNumber};
use pggraph::query::json_order::{order_numbers, to_text, total_json_order, JsonOrder};
use pggraph::query::lower::{lower, lower_statement};
use pggraph::query::physical_plan::{
    PhysicalJoinPlan, PhysicalNodeScan, PhysicalPlan, PhysicalStatement, PhysicalWildcardPathPlan,
    ReturnSlot,
};
use pggraph::query::rows::{GqlNodeCoordinate, GqlNodeRow, GqlRow};
use pggraph::query::semantics::{bind, bind_statement};
use pggraph::query::sqlpgq_adapter::{
    compatibility_matrix, lower_read as lower_sqlpgq_read, SqlPgqAggregateArg,
    SqlPgqAggregateFunc, SqlPgqDirection, SqlPgqNodePattern, SqlPgqRead,
    SqlPgqRelationshipPattern, SqlPgqReturnExpr, SqlPgqReturnItem, SqlPgqSortItem, SqlPgqSortKey,
};
use pggraph::query::value;
use pggraph::safety::{GraphError, GraphResult};
use pggraph::types::Binary64;

// ---------------------------------------------------------------------------
// Query text
// ---------------------------------------------------------------------------

#[derive(Debug, Clone, PartialEq)]
enum Token {
    Word(String),
    Number(String),
    Text(String),
    Symbol(&'static str),
}

struct Parser {
    tokens: Vec<(Token, Span)>,
    at: usize,
}

fn tokenize(text: &str) -> Result<Vec<(Token, Span)>, String> {
    let bytes = text.as_bytes();
    let mut tokens = Vec::new();
    let mut at = 0;
    while at < bytes.len() {
        let start = at;
        let c = bytes[at] as char;
        if c.is_ascii_whitespace() {
            at += 1;
            continue;
        }
        let token = if c.is_ascii_alphabetic() || c == '_' {
            while at < bytes.len() && (bytes[at].is_ascii_alphanumeric() || bytes[at] == b'_') {
                at += 1;
            }
            Token::Word(text[start..at].to_string())
        } else if c.is_ascii_digit() {
            while at < bytes.len()
                && (bytes[at].is_ascii_digit()
                    || (bytes[at] == b'.' && bytes.get(at + 1).is_some_and(u8::is_ascii_digit)))
            {
                at += 1;
            }
            Token::Number(text[start..at].to_string())
        } else if c == '\'' {
            at += 1;
            while bytes.get(at).is_some_and(|b| *b != b'\'') {
                at += 1;
            }
            at += 1;
            Token::Text(text[start + 1..at - 1].to_string())
        } else {
            let symbols = [
                "<>", "<=", ">=", "..", "(", ")", "[", "]", "{", "}", ":", ",", ".", "-", "<", ">",
                "=", "*", "$",
            ];
            match symbols.iter().find(|symbol| text[at..].starts_with(**symbol)) {
                Some(symbol) => {
                    at += symbol.len();
                    Token::Symbol(symbol)
                }
                None => return Err(format!("unexpected `{c}`")),
            }
        };
        tokens.push((token, Span { start, end: at }));
    }
    Ok(tokens)
}

impl Parser {
    fn span(&self) -> Span {
        match self.tokens.get(self.at) {
            Some((_, span)) => *span,
            None => Span { start: 0, end: 0 },
        }
    }

    fn is_word(&self, word: &str) -> bool {
        matches!(self.tokens.get(self.at), Some((Token::Word(found), _)) if found.eq_ignore_ascii_case(word))
    }

    fn is_symbol(&self, symbol: &str) -> bool {
        matches!(self.tokens.get(self.at), Some((Token::Symbol(found), _)) if *found == symbol)
    }

    fn word(&mut self, word: &str) -> bool {
        let found = self.is_word(word);
        if found {
            self.at += 1;
        }
        found
    }

    fn symbol(&mut self, symbol: &str) -> bool {
        let found = self.is_symbol(symbol);
        if found {
            self.at += 1;
        }
        found
    }

    fn expect(&mut self, symbol: &str) -> Result<(), String> {
        if self.symbol(symbol) {
            Ok(())
        } else {
            Err(format!("expected `{symbol}` at {:?}", self.tokens.get(self.at)))
        }
    }

    fn expect_word(&mut self, word: &str) -> Result<(), String> {
        if self.word(word) {
            Ok(())
        } else {
            Err(format!("expected `{word}` at {:?}", self.tokens.get(self.at)))
        }
    }

    fn ident(&mut self) -> Result<Ident, String> {
        match self.tokens.get(self.at) {
            Some((Token::Word(text), span)) => {
                let ident = Ident {
                    text: text.clone(),
                    span: *span,
                };
                self.at += 1;
                Ok(ident)
            }
            other => Err(format!("expected a name at {other:?}")),
        }
    }

    fn property(&mut self) -> Result<Ident, String> {
        let mut ident = self.ident()?;
        while self.symbol(".") {
            let next = self.ident()?;
            ident.text = format!("{}.{}", ident.text, next.text);
            ident.span.end = next.span.end;
        }
        Ok(ident)
    }

    fn number(&mut self) -> Result<u64, String> {
        match self.tokens.get(self.at) {
            Some((Token::Number(text), _)) => {
                self.at += 1;
                text.parse::<u64>().map_err(|error| error.to_string())
            }
            other => Err(format!("expected a number at {other:?}")),
        }
    }

    fn literal(&mut self) -> Result<Literal, String> {
        let span = self.span();
        let value = match self.tokens.get(self.at) {
            Some((Token::Text(text), _)) => LiteralValue::Str(text.clone()),
            Some((Token::Number(text), _)) => match text.parse::<i64>() {
                Ok(value) => LiteralValue::Int(value),
                Err(_) => LiteralValue::Float(Binary64 {
                    bits: text.parse::<f64>().map_err(|error| error.to_string())?.to_bits(),
                    text: text.clone(),
                }),
            },
            _ if self.is_word("true") => LiteralValue::Bool(true),
            _ if self.is_word("false") => LiteralValue::Bool(false),
            _ if self.is_word("null") => LiteralValue::Null,
            other => return Err(format!("expected a literal at {other:?}")),
        };
        self.at += 1;
        Ok(Literal::Value { value, span })
    }

    fn operand(&mut self) -> Result<Operand, String> {
        let span = self.span();
        if self.symbol("$") {
            return Ok(Operand::Param {
                name: self.ident()?,
                span,
            });
        }
        if self.symbol("[") {
            let mut values = vec![self.literal()?];
            while self.symbol(",") {
                values.push(self.literal()?);
            }
            self.expect("]")?;
            return Ok(Operand::List { values, span });
        }
        let is_name = matches!(self.tokens.get(self.at), Some((Token::Word(_), _)))
            && matches!(self.tokens.get(self.at + 1), Some((Token::Symbol("."), _)));
        if is_name {
            let var = self.ident()?;
            self.expect(".")?;
            let property = self.property()?;
            return Ok(Operand::Property {
                var,
                property,
                span,
            });
        }
        Ok(Operand::Literal(self.literal()?))
    }

    fn props(&mut self) -> Result<Vec<(Ident, Operand)>, String> {
        let mut props = Vec::new();
        if self.symbol("{") {
            loop {
                let name = self.property()?;
                self.expect(":")?;
                props.push((name, self.operand()?));
                if !self.symbol(",") {
                    break;
                }
            }
            self.expect("}")?;
        }
        Ok(props)
    }

    fn node(&mut self) -> Result<NodePat, String> {
        let span = self.span();
        self.expect("(")?;
        let var = if self.is_symbol(":") || self.is_symbol(")") || self.is_symbol("{") {
            None
        } else {
            Some(self.ident()?)
        };
        let label = if self.symbol(":") {
            Some(self.ident()?)
        } else {
            None
        };
        let props = self.props()?;
        self.expect(")")?;
        Ok(NodePat {
            var,
            label,
            props,
            span,
        })
    }

    fn relationship(&mut self) -> Result<RelPat, String> {
        let span = self.span();
        let inbound = self.symbol("<");
        self.expect("-")?;
        let mut rel = RelPat {
            var: None,
            rel_type: None,
            direction: Direction::Undirected,
            var_len: None,
            props: Vec::new(),
            span,
        };
        if self.symbol("[") {
            if !self.is_symbol(":") && !self.is_symbol("]") && !self.is_symbol("*") {
                rel.var = Some(self.ident()?);
            }
            if self.symbol(":") {
                rel.rel_type = Some(self.ident()?);
            }
            let hops = self.span();
            if self.symbol("*") {
                let min = self.number()? as u32;
                self.expect("..")?;
                let max = self.number()? as u32;
                rel.var_len = Some(VarLen {
                    min,
                    max,
                    span: hops,
                });
            }
            rel.props = self.props()?;
            self.expect("]")?;
        }
        self.expect("-")?;
        let outbound = self.symbol(">");
        rel.direction = match (inbound, outbound) {
            (true, _) => Direction::In,
            (false, true) => Direction::Out,
            (false, false) => Direction::Undirected,
        };
        Ok(rel)
    }

    fn pattern(&mut self) -> Result<Pattern, String> {
        let span = self.span();
        let path_var = if matches!(self.tokens.get(self.at), Some((Token::Word(_), _))) {
            let var = self.ident()?;
            self.expect("=")?;
            Some(var)
        } else {
            None
        };
        let start = self.node()?;
        let mut tail = Vec::new();
        while self.is_symbol("-") || self.is_symbol("<") {
            let rel = self.relationship()?;
            tail.push((rel, self.node()?));
        }
        Ok(Pattern {
            path_var,
            start,
            tail,
            span,
        })
    }

    fn match_clause(&mut self) -> Result<MatchClause, String> {
        let span = self.span();
        let optional = self.word("OPTIONAL");
        self.expect_word("MATCH")?;
        let pattern = self.pattern()?;
        let mut patterns = Vec::new();
        if self.is_symbol(",") {
            patterns.push(pattern.clone());
            while self.symbol(",") {
                patterns.push(self.pattern()?);
            }
        }
        Ok(MatchClause {
            optional,
            pattern,
            patterns,
            span,
        })
    }

    fn comparison(&mut self) -> Result<Expr, String> {
        let span = self.span();
        if self.word("NOT") {
            return Ok(Expr::Not {
                expr: Box::new(self.comparison()?),
                span,
            });
        }
        if self.symbol("(") {
            let expr = self.expr()?;
            self.expect(")")?;
            return Ok(expr);
        }
        let lhs = self.operand()?;
        if self.word("IS") {
            let op = if self.word("NOT") {
                CmpOp::IsNotNull
            } else {
                CmpOp::IsNull
            };
            self.expect_word("NULL")?;
            return Ok(Expr::Compare {
                lhs,
                op,
                rhs: None,
                span,
            });
        }
        let op = if self.symbol("=") {
            CmpOp::Eq
        } else if self.symbol("<>") {
            CmpOp::Neq
        } else if self.symbol("<=") {
            CmpOp::Lte
        } else if self.symbol(">=") {
            CmpOp::Gte
        } else if self.symbol("<") {
            CmpOp::Lt
        } else if self.symbol(">") {
            CmpOp::Gt
        } else {
            self.expect_word("IN")?;
            CmpOp::In
        };
        Ok(Expr::Compare {
            lhs,
            op,
            rhs: Some(self.operand()?),
            span,
        })
    }

    fn conjunction(&mut self) -> Result<Expr, String> {
        let mut expr = self.comparison()?;
        while self.is_word("AND") {
            let span = self.span();
            self.at += 1;
            let rhs = self.comparison()?;
            expr = Expr::And {
                lhs: Box::new(expr),
                rhs: Box::new(rhs),
                span,
            };
        }
        Ok(expr)
    }

    fn expr(&mut self) -> Result<Expr, String> {
        let mut expr = self.conjunction()?;
        while self.is_word("OR") {
            let span = self.span();
            self.at += 1;
            let rhs = self.conjunction()?;
            expr = Expr::Or {
                lhs: Box::new(expr),
                rhs: Box::new(rhs),
                span,
            };
        }
        Ok(expr)
    }

    fn where_clause(&mut self) -> Result<Option<Expr>, String> {
        if self.word("WHERE") {
            Ok(Some(self.expr()?))
        } else {
            Ok(None)
        }
    }

    fn return_expr(&mut self) -> Result<ReturnExpr, String> {
        let span = self.span();
        let name = self.ident()?;
        if self.symbol("(") {
            let func = match name.text.to_ascii_lowercase().as_str() {
                "count" => Some(AggregateFunc::Count),
                "sum" => Some(AggregateFunc::Sum),
                "avg" => Some(AggregateFunc::Avg),
                "min" => Some(AggregateFunc::Min),
                "max" => Some(AggregateFunc::Max),
                "collect" => Some(AggregateFunc::Collect),
                _ => None,
            };
            let Some(func) = func else {
                let args = vec![self.ident()?];
                self.expect(")")?;
                return Ok(ReturnExpr::Func { name, args, span });
            };
            let distinct = self.word("DISTINCT");
            let arg = if self.symbol("*") {
                AggregateArg::All { span }
            } else {
                let var = self.ident()?;
                if self.symbol(".") {
                    AggregateArg::Property {
                        var,
                        property: self.property()?,
                        span,
                    }
                } else {
                    AggregateArg::Var { var, span }
                }
            };
            self.expect(")")?;
            return Ok(ReturnExpr::Aggregate {
                func,
                distinct,
                arg,
                name,
                span,
            });
        }
        if self.symbol(".") {
            return Ok(ReturnExpr::Property {
                var: name,
                property: self.property()?,
                span,
            });
        }
        Ok(ReturnExpr::Var { var: name, span })
    }

    fn items(&mut self) -> Result<Vec<ReturnItem>, String> {
        let mut items = Vec::new();
        loop {
            let span = self.span();
            let expr = self.return_expr()?;
            let alias = if self.word("AS") {
                Some(self.ident()?)
            } else {
                None
            };
            items.push(ReturnItem { expr, alias, span });
            if !self.symbol(",") {
                return Ok(items);
            }
        }
    }

    fn return_clause(&mut self) -> Result<ReturnClause, String> {
        let span = self.span();
        self.expect_word("RETURN")?;
        let distinct = self.word("DISTINCT");
        Ok(ReturnClause {
            distinct,
            items: self.items()?,
            span,
        })
    }

    fn property_target(&mut self) -> Result<PropertyTarget, String> {
        let span = self.span();
        let var = self.ident()?;
        self.expect(".")?;
        Ok(PropertyTarget {
            var,
            property: self.property()?,
            span,
        })
    }

    fn set_clause(&mut self) -> Result<SetClause, String> {
        let span = self.span();
        self.expect_word("SET")?;
        let target = self.property_target()?;
        self.expect("=")?;
        Ok(SetClause {
            target,
            value: self.operand()?,
            span,
        })
    }

    fn read_rest(
        &mut self,
        match_: MatchClause,
        where_: Option<Expr>,
        span: Span,
    ) -> Result<Query, String> {
        let mut with_ = Vec::new();
        while self.is_word("WITH") {
            let span = self.span();
            self.at += 1;
            let distinct = self.word("DISTINCT");
            with_.push(WithClause {
                distinct,
                items: self.items()?,
                span,
            });
        }
        let return_ = self.return_clause()?;
        let mut order_by = Vec::new();
        if self.word("ORDER") {
            self.expect_word("BY")?;
            loop {
                let span = self.span();
                let name = self.ident()?;
                let key = if self.symbol(".") {
                    SortKey::Property {
                        var: name,
                        property: self.property()?,
                        span,
                    }
                } else {
                    SortKey::Alias { alias: name, span }
                };
                let desc = self.word("DESC");
                if !desc {
                    self.word("ASC");
                }
                order_by.push(SortItem { key, desc, span });
                if !self.symbol(",") {
                    break;
                }
            }
        }
        let skip = if self.word("SKIP") {
            Some(self.number()?)
        } else {
            None
        };
        let limit = if self.word("LIMIT") {
            Some(self.number()?)
        } else {
            None
        };
        Ok(Query {
            match_,
            where_,
            with_,
            return_,
            order_by,
            skip,
            limit,
            span,
        })
    }

    fn statement(&mut self) -> Result<Statement, String> {
        let span = self.span();
        if self.word("CREATE") {
            let node = self.node()?;
            let return_ = self.return_clause()?;
            return Ok(Statement::Create(CreateQuery {
                create: CreateClause { node, span },
                return_,
                span,
            }));
        }
        if self.word("MERGE") {
            let node = self.node()?;
            let mut on_create = None;
            let mut on_match = None;
            while self.word("ON") {
                if self.word("CREATE") {
                    on_create = Some(self.set_clause()?);
                } else {
                    self.expect_word("MATCH")?;
                    on_match = Some(self.set_clause()?);
                }
            }
            let return_ = self.return_clause()?;
            return Ok(Statement::Merge(MergeQuery {
                merge: MergeClause { node, span },
                on_create,
                on_match,
                return_,
                span,
            }));
        }
        let match_ = self.match_clause()?;
        let where_ = self.where_clause()?;
        if self.is_word("SET") {
            let set = self.set_clause()?;
            let return_ = self.return_clause()?;
            return Ok(Statement::SetProperty(SetQuery {
                match_,
                where_,
                set,
                return_,
                span,
            }));
        }
        let clause = self.span();
        if self.word("REMOVE") {
            let var = self.ident()?;
            let target = if self.symbol(":") {
                RemoveTarget::Label {
                    var,
                    label: self.ident()?,
                    span: clause,
                }
            } else {
                self.expect(".")?;
                RemoveTarget::Property(PropertyTarget {
                    var,
                    property: self.property()?,
                    span: clause,
                })
            };
            let return_ = self.return_clause()?;
            return Ok(Statement::Remove(RemoveQuery {
                match_,
                where_,
                remove: RemoveClause {
                    target,
                    span: clause,
                },
                return_,
                span,
            }));
        }
        let detach = self.word("DETACH");
        if self.word("DELETE") {
            let delete = DeleteClause {
                var: self.ident()?,
                span: clause,
            };
            let return_ = self.return_clause()?;
            return Ok(if detach {
                Statement::DetachDelete(DetachDeleteQuery {
                    match_,
                    where_,
                    delete,
                    return_,
                    span,
                })
            } else {
                Statement::Delete(DeleteQuery {
                    match_,
                    where_,
                    delete,
                    return_,
                    span,
                })
            });
        }
        Ok(Statement::Read(self.read_rest(match_, where_, span)?))
    }
}

fn parse_statement(text: &str) -> Result<Statement, String> {
    let mut parser = Parser {
        tokens: tokenize(text)?,
        at: 0,
    };
    let statement = parser.statement()?;
    if parser.at == parser.tokens.len() {
        Ok(statement)
    } else {
        Err(format!("unexpected {:?}", parser.tokens[parser.at]))
    }
}

fn parse(text: &str) -> Result<Query, String> {
    match parse_statement(text)? {
        Statement::Read(query) => Ok(query),
        other => Err(format!("not a read: {other:?}")),
    }
}

// ---------------------------------------------------------------------------
// Values
// ---------------------------------------------------------------------------

fn json(text: &str) -> serde_json::Value {
    serde_json::from_str(text).unwrap()
}

fn to_json(value: &serde_json::Value) -> Json {
    match value {
        serde_json::Value::Null => Json::Null,
        serde_json::Value::Bool(inner) => Json::Bool(*inner),
        serde_json::Value::Number(number) => Json::Number(if let Some(int) = number.as_i64() {
            JsonNumber::Int(int)
        } else if let Some(int) = number.as_u64() {
            JsonNumber::UInt(int)
        } else {
            JsonNumber::Float(Binary64 {
                bits: number.as_f64().unwrap().to_bits(),
                text: number.to_string(),
            })
        }),
        serde_json::Value::String(text) => Json::Text(text.clone()),
        serde_json::Value::Array(items) => Json::Array(items.iter().map(to_json).collect()),
        serde_json::Value::Object(entries) => Json::Object(
            entries
                .iter()
                .map(|(key, value)| (key.clone(), to_json(value)))
                .collect(),
        ),
    }
}

fn to_value(value: &Json) -> serde_json::Value {
    match value {
        Json::Null => serde_json::Value::Null,
        Json::Bool(inner) => serde_json::Value::from(*inner),
        Json::Number(JsonNumber::Int(int)) => serde_json::Value::from(*int),
        Json::Number(JsonNumber::UInt(int)) => serde_json::Value::from(*int),
        Json::Number(JsonNumber::Float(float)) => {
            serde_json::Value::from(f64::from_bits(float.bits))
        }
        Json::Text(text) => serde_json::Value::from(text.as_str()),
        Json::Array(items) => serde_json::Value::Array(items.iter().map(to_value).collect()),
        Json::Object(entries) => serde_json::Value::Object(
            entries
                .iter()
                .map(|(key, value)| (key.clone(), to_value(value)))
                .collect(),
        ),
    }
}

fn hydrated_rows(rows: Vec<((u32, String), serde_json::Value)>) -> HydratedRows {
    let mut hydrated = HydratedRows::new();
    for ((table_oid, node_id), row) in rows {
        hydrated.insert(table_oid, node_id, to_json(&row));
    }
    hydrated
}

fn sums_of(inputs: Vec<SumInput>) -> Vec<Json> {
    inputs
        .iter()
        .map(|input| {
            let values: Vec<f64> = input
                .values
                .iter()
                .map(|value| to_value(value).as_f64().unwrap())
                .collect();
            let sum: f64 = values.iter().sum();
            let result = if input.average {
                sum / values.len() as f64
            } else {
                sum
            };
            to_json(&serde_json::Value::from(result))
        })
        .collect()
}

fn project_rows(
    rows: Vec<GqlRow>,
    plan: &PhysicalPlan,
    hydrated: &HydratedRows,
    params: &QueryParams,
    hydrate: bool,
) -> GraphResult<Vec<serde_json::Value>> {
    let inputs = value::sum_inputs(&rows, plan, hydrated, params, hydrate)?;
    let projected = value::project_rows(&rows, plan, hydrated, params, hydrate, &sums_of(inputs))?;
    Ok(projected.iter().map(to_value).collect())
}

fn project_node_rows(
    rows: Vec<GqlNodeRow>,
    plan: &PhysicalNodeScan,
    hydrated: &HydratedRows,
    params: &QueryParams,
    hydrate: bool,
) -> GraphResult<Vec<serde_json::Value>> {
    let inputs = value::node_sum_inputs(&rows, plan, hydrated, params, hydrate)?;
    let projected =
        value::project_node_rows(&rows, plan, hydrated, params, hydrate, &sums_of(inputs))?;
    Ok(projected.iter().map(to_value).collect())
}

// ---------------------------------------------------------------------------
// Engines
// ---------------------------------------------------------------------------

fn clean_tx() -> TxState {
    TxState::new(tx_delta::default_limits())
}

fn execute(engine: &Engine, plan: &PhysicalPlan, tenant: Option<&str>) -> GraphResult<Vec<GqlRow>> {
    execute::execute(engine, &clean_tx(), plan, tenant)
}

fn execute_node_scan(
    engine: &Engine,
    plan: &PhysicalNodeScan,
    tenant: Option<&str>,
) -> GraphResult<Vec<GqlNodeRow>> {
    execute::execute_node_scan(engine, &clean_tx(), plan, tenant)
}

fn insert_table_membership(engine: &mut Engine, table_oid: u32, node_idx: u32) {
    match engine
        .table_membership
        .iter_mut()
        .find(|entry| entry.table_oid == table_oid)
    {
        Some(entry) => entry.nodes.push(node_idx),
        None => engine.table_membership.push(TableMembership {
            table_oid,
            nodes: vec![node_idx],
        }),
    }
}

fn insert_tenant_membership(engine: &mut Engine, tenant: &str, node_idx: u32) {
    match engine
        .tenant_membership
        .iter_mut()
        .find(|entry| entry.tenant == tenant)
    {
        Some(entry) => entry.nodes.push(node_idx),
        None => engine.tenant_membership.push(TenantMembership {
            tenant: tenant.to_string(),
            nodes: vec![node_idx],
        }),
    }
}

fn register_edge_type(engine: &mut Engine, label: &str) -> u8 {
    match engine
        .edge_type_registry
        .iter()
        .position(|known| known == label)
    {
        Some(at) => at as u8,
        None => {
            engine.edge_type_registry.push(label.to_string());
            (engine.edge_type_registry.len() - 1) as u8
        }
    }
}

fn edge(source: u32, target: u32, type_id: u8) -> RawEdge {
    RawEdge {
        source,
        target,
        type_id,
        weight: None,
        schema_reversed: false,
    }
}

fn node_count(engine: &Engine) -> u32 {
    engine.nodes.len() as u32
}

fn reversed(store: &EdgeStore) -> EdgeStore {
    let mut edges = Vec::new();
    for node in 0..store.node_count() {
        for (key, weight) in store.neighbors(node) {
            edges.push(RawEdge {
                source: key.target,
                target: key.source,
                type_id: key.type_id,
                weight: *weight,
                schema_reversed: key.schema_reversed,
            });
        }
    }
    EdgeStore::from_edges(store.node_count(), edges, store.has_weights())
}

fn message<E: std::fmt::Debug>(error: &E) -> String {
    format!("{error:?}")
}

fn fake_catalog() -> FakeCatalog {
    FakeCatalog::new()
        .with_writable_label("users", 10, &[
                "id",
                "name",
                "age",
                "profile",
                "profile.plan",
                "profile.tags",
                "profile.flags",
                "profile.missing",
                "profile.explicit_null",
            ], &["name", "age", "profile", "profile.plan"])
        .with_writable_label("companies", 20, &["id", "name"], &["name"])
        .with_edge("works_at", 10, 20)
        .with_mapped_edge(MappedEdgeSpec {
            rel_type: "friend",
            from_table_oid: 10,
            to_table_oid: 10,
            edge_table_oid: 30,
            source_column: "user_id",
            target_column: "friend_id",
            bidirectional: false,
        })
}

fn bind_query(query: &str) -> pggraph::query::logical_plan::LogicalPlan {
    let ast = parse(query).unwrap();
    bind(&ast, &fake_catalog()).unwrap()
}

#[test]
fn binder_accepts_create_node_for_registered_label() {
    let ast =
        parse_statement("CREATE (u:users {id: 'u3', name: $name}) RETURN u").unwrap();
    let plan = bind_statement(&ast, &fake_catalog()).unwrap();
    let pggraph::query::logical_plan::LogicalStatement::CreateNode(create) = plan else {
        panic!("expected create node plan");
    };

    assert_eq!(create.node.var, "u");
    assert_eq!(create.node.table_oid, 10);
    assert_eq!(create.properties.len(), 2);
    assert_eq!(create.returns.len(), 1);
}

#[test]
fn binder_accepts_set_property_for_writable_column() {
    let ast =
        parse_statement("MATCH (u:users {id: 'u1'}) SET u.name = $name RETURN u.name")
            .unwrap();
    let plan = bind_statement(&ast, &fake_catalog()).unwrap();
    let pggraph::query::logical_plan::LogicalStatement::SetProperty(set) = plan else {
        panic!("expected set property plan");
    };

    assert_eq!(set.node.var, "u");
    assert_eq!(set.node.table_oid, 10);
    assert_eq!(set.property, "name");
    assert!(set.predicate.is_some());
    assert_eq!(set.returns.len(), 1);
}

#[test]
fn binder_accepts_remove_property_for_writable_column() {
    let ast = parse_statement("MATCH (u:users {id: 'u1'}) REMOVE u.age RETURN u.age")
        .unwrap();
    let plan = bind_statement(&ast, &fake_catalog()).unwrap();
    let pggraph::query::logical_plan::LogicalStatement::RemoveProperty(remove) = plan else {
        panic!("expected remove property plan");
    };

    assert_eq!(remove.node.var, "u");
    assert_eq!(remove.node.table_oid, 10);
    assert_eq!(remove.property, "age");
    assert!(remove.predicate.is_some());
    assert_eq!(remove.returns.len(), 1);
}

#[test]
fn binder_accepts_remove_jsonb_property_path() {
    let ast = parse_statement(
        "MATCH (u:users {id: 'u1'}) REMOVE u.profile.plan RETURN u.profile.plan AS plan",
    )
    .unwrap();
    let plan = bind_statement(&ast, &fake_catalog()).unwrap();
    let pggraph::query::logical_plan::LogicalStatement::RemoveProperty(remove) = plan else {
        panic!("expected remove property plan");
    };

    assert_eq!(remove.property, "profile.plan");
    assert_eq!(remove.returns[0].name(), "plan");
}

#[test]
fn binder_rejects_remove_label_for_source_table_labels() {
    let ast =
        parse_statement("MATCH (u:users {id: 'u1'}) REMOVE u:users RETURN u").unwrap();
    let err = bind_statement(&ast, &fake_catalog()).unwrap_err();

    assert!(matches!(err.kind, GqlErrorKind::Unsupported { .. }));
    assert!(message(&err)
        .contains("labels map to registered source tables"));
}

#[test]
fn binder_rejects_set_property_for_non_writable_column() {
    let ast =
        parse_statement("MATCH (u:users {id: 'u1'}) SET u.id = 'u2' RETURN u").unwrap();
    let err = bind_statement(&ast, &fake_catalog()).unwrap_err();

    assert!(matches!(err.kind, GqlErrorKind::Bind { .. }));
    assert!(message(&err).contains("not a writable mapped column"));
}

#[test]
fn binder_rejects_set_property_for_tenant_column() {
    let catalog = FakeCatalog::new().with_writable_label("tenant_users", 30, &["id", "tenant_id", "name"], &["name"]);
    let ast = parse_statement(
        "MATCH (u:tenant_users {id: 'u1'}) SET u.tenant_id = 'tenant-b' RETURN u",
    )
    .unwrap();
    let err = bind_statement(&ast, &catalog).unwrap_err();

    assert!(matches!(err.kind, GqlErrorKind::Bind { .. }));
    assert!(message(&err).contains("not a writable mapped column"));
}

#[test]
fn binder_rejects_jsonb_property_path_returns_for_writes() {
    let create = parse_statement(
        "CREATE (u:users {id: 'u3', name: 'Cara'}) RETURN u.profile.plan",
    )
    .unwrap();
    let create_err = bind_statement(&create, &fake_catalog()).unwrap_err();

    assert!(matches!(create_err.kind, GqlErrorKind::Unsupported { .. }));

    let set = parse_statement(
        "MATCH (u:users {id: 'u1'}) SET u.name = 'Ada' RETURN u.profile.plan",
    )
    .unwrap();
    let set_err = bind_statement(&set, &fake_catalog()).unwrap_err();

    assert!(matches!(set_err.kind, GqlErrorKind::Unsupported { .. }));
}

#[test]
fn binder_accepts_delete_for_mapped_edge_row() {
    let ast =
        parse_statement("MATCH (u:users)-[r:friend]->(v:users) DELETE r RETURN u, v")
            .unwrap();
    let plan = bind_statement(&ast, &fake_catalog()).unwrap();
    let pggraph::query::logical_plan::LogicalStatement::DeleteEdge(delete) = plan else {
        panic!("expected delete edge plan");
    };

    assert_eq!(delete.source.var, "u");
    assert_eq!(delete.target.var, "v");
    assert_eq!(delete.rel_var, "r");
    assert_eq!(delete.edge.edge_table_oid, 30);
    assert_eq!(delete.edge.source_column, "user_id");
    assert_eq!(delete.edge.target_column, "friend_id");
    assert_eq!(delete.returns.len(), 2);
}

#[test]
fn binder_accepts_detach_delete_for_node_with_mapped_incident_edges() {
    let catalog = FakeCatalog::new()
        .with_writable_label("users", 10, &["id", "name"], &["name"])
        .with_mapped_edge(MappedEdgeSpec {
            rel_type: "friend",
            from_table_oid: 10,
            to_table_oid: 10,
            edge_table_oid: 30,
            source_column: "user_id",
            target_column: "friend_id",
            bidirectional: false,
        });
    let ast =
        parse_statement("MATCH (u:users {id: 'u1'}) DETACH DELETE u RETURN u.name")
            .unwrap();
    let plan = bind_statement(&ast, &catalog).unwrap();
    let pggraph::query::logical_plan::LogicalStatement::DetachDeleteNode(delete) = plan else {
        panic!("expected detach delete node plan");
    };

    assert_eq!(delete.node.var, "u");
    assert_eq!(delete.node.table_oid, 10);
    assert!(delete.predicate.is_some());
    assert_eq!(delete.incident_edges.len(), 1);
    assert_eq!(delete.incident_edges[0].rel_type, "friend");
    assert_eq!(delete.incident_edges[0].edge.edge_table_oid, 30);
    assert_eq!(delete.returns.len(), 1);
}

#[test]
fn binder_accepts_merge_node_with_create_and_match_branches() {
    let ast = parse_statement(
        "MERGE (u:users {id: $id, name: $name}) ON CREATE SET u.age = 1 ON MATCH SET u.name = $name RETURN u.name",
    )
    .unwrap();
    let plan = bind_statement(&ast, &fake_catalog()).unwrap();
    let pggraph::query::logical_plan::LogicalStatement::MergeNode(merge) = plan else {
        panic!("expected merge node plan");
    };

    assert_eq!(merge.node.var, "u");
    assert_eq!(merge.node.table_oid, 10);
    assert_eq!(merge.properties.len(), 2);
    assert_eq!(
        merge
            .on_create
            .as_ref()
            .map(|property| property.property.as_str()),
        Some("age")
    );
    assert_eq!(
        merge
            .on_match
            .as_ref()
            .map(|property| property.property.as_str()),
        Some("name")
    );
    assert_eq!(merge.returns.len(), 1);
}

#[test]
fn binder_rejects_merge_branch_for_non_writable_column() {
    let ast =
        parse_statement("MERGE (u:users {id: $id}) ON MATCH SET u.id = 'u2' RETURN u")
            .unwrap();
    let err = bind_statement(&ast, &fake_catalog()).unwrap_err();

    assert!(matches!(err.kind, GqlErrorKind::Bind { .. }));
    assert!(message(&err).contains("not a writable mapped column"));
}

#[test]
fn binder_rejects_detach_delete_unknown_variable() {
    let ast =
        parse_statement("MATCH (u:users {id: 'u1'}) DETACH DELETE v RETURN u").unwrap();
    let err = bind_statement(&ast, &fake_catalog()).unwrap_err();

    assert!(matches!(err.kind, GqlErrorKind::Bind { .. }));
    assert!(message(&err).contains("unknown DETACH DELETE variable"));
}

#[test]
fn sqlpgq_adapter_lowers_node_pattern_into_shared_ir() {
    let read = SqlPgqRead {
        source: SqlPgqNodePattern {
            var: "u".to_string(),
            label: "users".to_string(),
        },
        relationship: None,
        optional: false,
        returns: vec![
            SqlPgqReturnItem {
                expr: SqlPgqReturnExpr::Property {
                    var: "u".to_string(),
                    property: "name".to_string(),
                },
                alias: Some("name".to_string()),
            },
            SqlPgqReturnItem {
                expr: SqlPgqReturnExpr::Aggregate {
                    func: SqlPgqAggregateFunc::Count,
                    distinct: false,
                    arg: SqlPgqAggregateArg::All,
                },
                alias: Some("total".to_string()),
            },
        ],
        distinct: false,
        order_by: vec![SqlPgqSortItem {
            key: SqlPgqSortKey::Alias("name".to_string()),
            desc: false,
        }],
        skip: None,
        limit: Some(10),
    };

    let logical = lower_sqlpgq_read(&read, &fake_catalog()).unwrap();

    let pggraph::query::logical_plan::LogicalStatement::NodeScan(scan) = logical else {
        panic!("expected SQL/PGQ node pattern to lower into node scan");
    };
    assert_eq!(scan.node.var, "u");
    assert_eq!(scan.node.label, "users");
    assert_eq!(scan.returns.len(), 2);
    assert_eq!(scan.limit, Some(10));
}

#[test]
fn sqlpgq_adapter_lowers_relationship_pattern_into_shared_ir() {
    let read = SqlPgqRead {
        source: SqlPgqNodePattern {
            var: "u".to_string(),
            label: "users".to_string(),
        },
        relationship: Some((
            SqlPgqRelationshipPattern {
                var: Some("r".to_string()),
                rel_type: "works_at".to_string(),
                direction: SqlPgqDirection::Out,
                hops: Some((1, 2)),
            },
            SqlPgqNodePattern {
                var: "c".to_string(),
                label: "companies".to_string(),
            },
        )),
        optional: true,
        returns: vec![
            SqlPgqReturnItem {
                expr: SqlPgqReturnExpr::Var("u".to_string()),
                alias: None,
            },
            SqlPgqReturnItem {
                expr: SqlPgqReturnExpr::Property {
                    var: "u".to_string(),
                    property: "name".to_string(),
                },
                alias: Some("name".to_string()),
            },
            SqlPgqReturnItem {
                expr: SqlPgqReturnExpr::PathFunction {
                    name: "length".to_string(),
                    arg: "r".to_string(),
                },
                alias: Some("hops".to_string()),
            },
        ],
        distinct: true,
        order_by: vec![SqlPgqSortItem {
            key: SqlPgqSortKey::Alias("name".to_string()),
            desc: true,
        }],
        skip: Some(1),
        limit: Some(5),
    };

    let logical = lower_sqlpgq_read(&read, &fake_catalog()).unwrap();

    let pggraph::query::logical_plan::LogicalStatement::Read(plan) = logical else {
        panic!("expected SQL/PGQ relationship pattern to lower into read plan");
    };
    assert!(plan.optional);
    assert!(plan.distinct);
    assert_eq!(plan.relationship.var.as_deref(), Some("r"));
    assert_eq!(plan.relationship.hops.max, 2);
    assert_eq!(plan.order_by.len(), 1);
}

#[test]
fn sqlpgq_adapter_lowers_direction_and_property_sort_variants() {
    for (source_label, target_label, direction, expected) in [
        (
            "companies",
            "users",
            SqlPgqDirection::In,
            pggraph::query::logical_plan::BoundDirection::In,
        ),
        (
            "users",
            "companies",
            SqlPgqDirection::Undirected,
            pggraph::query::logical_plan::BoundDirection::Undirected,
        ),
    ] {
        let read = SqlPgqRead {
            source: SqlPgqNodePattern {
                var: "u".to_string(),
                label: source_label.to_string(),
            },
            relationship: Some((
                SqlPgqRelationshipPattern {
                    var: Some("r".to_string()),
                    rel_type: "works_at".to_string(),
                    direction,
                    hops: None,
                },
                SqlPgqNodePattern {
                    var: "c".to_string(),
                    label: target_label.to_string(),
                },
            )),
            optional: false,
            returns: vec![SqlPgqReturnItem {
                expr: SqlPgqReturnExpr::Property {
                    var: "c".to_string(),
                    property: "name".to_string(),
                },
                alias: Some("company".to_string()),
            }],
            distinct: false,
            order_by: vec![SqlPgqSortItem {
                key: SqlPgqSortKey::Property {
                    var: "u".to_string(),
                    property: "name".to_string(),
                },
                desc: false,
            }],
            skip: None,
            limit: None,
        };

        let logical = lower_sqlpgq_read(&read, &fake_catalog()).unwrap();

        let pggraph::query::logical_plan::LogicalStatement::Read(plan) = logical else {
            panic!("expected SQL/PGQ relationship pattern to lower into read plan");
        };
        assert_eq!(plan.relationship.direction, expected);
        assert!(matches!(
            plan.order_by.first().map(|sort| &sort.key),
            Some(pggraph::query::logical_plan::SortBindingKey::Property {
                side: pggraph::query::logical_plan::BindingSide::Source,
                property
            }) if property == "name"
        ));
    }
}

#[test]
fn sqlpgq_adapter_lowers_all_supported_aggregate_variants() {
    let read = SqlPgqRead {
        source: SqlPgqNodePattern {
            var: "u".to_string(),
            label: "users".to_string(),
        },
        relationship: None,
        optional: false,
        returns: vec![
            SqlPgqReturnItem {
                expr: SqlPgqReturnExpr::Aggregate {
                    func: SqlPgqAggregateFunc::Count,
                    distinct: true,
                    arg: SqlPgqAggregateArg::All,
                },
                alias: Some("count_rows".to_string()),
            },
            SqlPgqReturnItem {
                expr: SqlPgqReturnExpr::Aggregate {
                    func: SqlPgqAggregateFunc::Count,
                    distinct: false,
                    arg: SqlPgqAggregateArg::Var("u".to_string()),
                },
                alias: Some("count_users".to_string()),
            },
            SqlPgqReturnItem {
                expr: SqlPgqReturnExpr::Aggregate {
                    func: SqlPgqAggregateFunc::Sum,
                    distinct: false,
                    arg: SqlPgqAggregateArg::Property {
                        var: "u".to_string(),
                        property: "age".to_string(),
                    },
                },
                alias: Some("sum_age".to_string()),
            },
            SqlPgqReturnItem {
                expr: SqlPgqReturnExpr::Aggregate {
                    func: SqlPgqAggregateFunc::Avg,
                    distinct: false,
                    arg: SqlPgqAggregateArg::Property {
                        var: "u".to_string(),
                        property: "age".to_string(),
                    },
                },
                alias: Some("avg_age".to_string()),
            },
            SqlPgqReturnItem {
                expr: SqlPgqReturnExpr::Aggregate {
                    func: SqlPgqAggregateFunc::Min,
                    distinct: false,
                    arg: SqlPgqAggregateArg::Property {
                        var: "u".to_string(),
                        property: "name".to_string(),
                    },
                },
                alias: Some("min_name".to_string()),
            },
            SqlPgqReturnItem {
                expr: SqlPgqReturnExpr::Aggregate {
                    func: SqlPgqAggregateFunc::Max,
                    distinct: false,
                    arg: SqlPgqAggregateArg::Property {
                        var: "u".to_string(),
                        property: "name".to_string(),
                    },
                },
                alias: Some("max_name".to_string()),
            },
            SqlPgqReturnItem {
                expr: SqlPgqReturnExpr::Aggregate {
                    func: SqlPgqAggregateFunc::Collect,
                    distinct: false,
                    arg: SqlPgqAggregateArg::Property {
                        var: "u".to_string(),
                        property: "name".to_string(),
                    },
                },
                alias: Some("names".to_string()),
            },
        ],
        distinct: false,
        order_by: Vec::new(),
        skip: None,
        limit: None,
    };

    let logical = lower_sqlpgq_read(&read, &fake_catalog()).unwrap();

    let pggraph::query::logical_plan::LogicalStatement::NodeScan(scan) = logical else {
        panic!("expected SQL/PGQ aggregate pattern to lower into node scan");
    };
    let aggregate_funcs = scan
        .returns
        .iter()
        .map(|binding| match binding {
            pggraph::query::logical_plan::ReturnBinding::Aggregate { func, .. } => *func,
            other => panic!("expected aggregate binding, got {other:?}"),
        })
        .collect::<Vec<_>>();
    assert_eq!(
        aggregate_funcs,
        vec![
            pggraph::query::logical_plan::AggregateFunc::Count,
            pggraph::query::logical_plan::AggregateFunc::Count,
            pggraph::query::logical_plan::AggregateFunc::Sum,
            pggraph::query::logical_plan::AggregateFunc::Avg,
            pggraph::query::logical_plan::AggregateFunc::Min,
            pggraph::query::logical_plan::AggregateFunc::Max,
            pggraph::query::logical_plan::AggregateFunc::Collect,
        ]
    );
}

#[test]
fn sqlpgq_adapter_rejects_out_of_matrix_patterns() {
    let optional_node = SqlPgqRead {
        source: SqlPgqNodePattern {
            var: "u".to_string(),
            label: "users".to_string(),
        },
        relationship: None,
        optional: true,
        returns: vec![SqlPgqReturnItem {
            expr: SqlPgqReturnExpr::Var("u".to_string()),
            alias: None,
        }],
        distinct: false,
        order_by: Vec::new(),
        skip: None,
        limit: None,
    };
    let err = lower_sqlpgq_read(&optional_node, &fake_catalog()).unwrap_err();
    assert!(matches!(err.kind, GqlErrorKind::Unsupported { .. }));

    let zero_hop = SqlPgqRead {
        relationship: Some((
            SqlPgqRelationshipPattern {
                var: Some("r".to_string()),
                rel_type: "works_at".to_string(),
                direction: SqlPgqDirection::Out,
                hops: Some((0, 1)),
            },
            SqlPgqNodePattern {
                var: "c".to_string(),
                label: "companies".to_string(),
            },
        )),
        optional: false,
        ..optional_node
    };
    let err = lower_sqlpgq_read(&zero_hop, &fake_catalog()).unwrap_err();
    assert!(matches!(err.kind, GqlErrorKind::Unsupported { .. }));
}

#[test]
fn sqlpgq_adapter_maintains_own_compatibility_matrix() {
    assert!(compatibility_matrix()
        .iter()
        .any(|row| row.feature == "single relationship pattern" && row.status == "supported"));
    assert!(compatibility_matrix()
        .iter()
        .any(|row| row.feature == "GRAPH_TABLE SQL text" && row.status != "supported"));
    assert!(compatibility_matrix()
        .iter()
        .any(|row| row.feature == "predicates" && row.status == "deferred"));
}

#[test]
fn binder_rejects_delete_for_unmapped_relationship_row() {
    let ast = parse_statement(
        "MATCH (u:users)-[r:works_at]->(c:companies) DELETE r RETURN u",
    )
    .unwrap();
    let err = bind_statement(&ast, &fake_catalog()).unwrap_err();

    assert!(matches!(err.kind, GqlErrorKind::Unsupported { .. }));
    assert!(message(&err).contains("registered edge row table"));
}

#[test]
fn binder_rejects_undirected_delete_edge() {
    let ast = parse_statement("MATCH (u:users)-[r:friend]-(v:users) DELETE r RETURN u")
        .unwrap();
    let err = bind_statement(&ast, &fake_catalog()).unwrap_err();

    assert!(matches!(err.kind, GqlErrorKind::Unsupported { .. }));
    assert!(message(&err).contains("directed relationship pattern"));
}

#[test]
fn binder_accepts_single_directed_match_returning_coordinates() {
    let plan = bind_query("MATCH (u:users)-[:works_at]->(c:companies) RETURN u, c");

    assert!(!plan.optional);
    assert_eq!(plan.source.var, "u");
    assert_eq!(plan.source.table_oid, 10);
    assert_eq!(plan.relationship.rel_type, "works_at");
    assert_eq!(plan.target.var, "c");
    assert_eq!(plan.target.table_oid, 20);
    assert_eq!(plan.returns.len(), 2);
}

#[test]
fn binder_accepts_optional_relationship_match() {
    let plan = bind_query("OPTIONAL MATCH (u:users)-[:works_at]->(c:companies) RETURN u, c");

    assert!(plan.optional);
    assert_eq!(plan.source.var, "u");
    assert_eq!(plan.target.var, "c");
}

#[test]
fn binder_rejects_node_only_optional_match() {
    let ast = parse_statement("OPTIONAL MATCH (u:users) RETURN u").unwrap();
    let err = bind_statement(&ast, &fake_catalog()).unwrap_err();

    assert!(matches!(err.kind, GqlErrorKind::Unsupported { .. }));
    assert!(message(&err).contains("node-only OPTIONAL MATCH"));
}

#[test]
fn binder_accepts_node_only_match_for_registered_label() {
    let ast = parse_statement("MATCH (u:users {id: 'u1'}) RETURN u, u.name").unwrap();
    let plan = bind_statement(&ast, &fake_catalog()).unwrap();
    let pggraph::query::logical_plan::LogicalStatement::NodeScan(scan) = plan else {
        panic!("expected node scan plan");
    };

    assert_eq!(scan.node.var, "u");
    assert_eq!(scan.node.table_oid, 10);
    assert!(scan.predicate.is_some());
    assert_eq!(scan.returns.len(), 2);
}

#[test]
fn binder_rejects_unknown_label_and_relationship_type() {
    let unknown_label = parse("MATCH (u:missing)-[:works_at]->(c:companies) RETURN u").unwrap();
    let label_err = bind(&unknown_label, &fake_catalog()).unwrap_err();
    assert!(matches!(label_err.kind, GqlErrorKind::Bind { .. }));

    let unknown_type = parse("MATCH (u:users)-[:owns]->(c:companies) RETURN u").unwrap();
    let type_err = bind(&unknown_type, &fake_catalog()).unwrap_err();
    assert!(matches!(type_err.kind, GqlErrorKind::Bind { .. }));
}

#[test]
fn binder_rejects_out_of_slice_1b_shapes() {
    for query in [
        "MATCH (u:users)-[:works_at*0..1]->(c:companies) RETURN u",
        "MATCH (u:users)-[:works_at*1..65]->(c:companies) RETURN u",
        "MATCH (u:users)-[:works_at]->(c:companies) RETURN u ORDER BY u",
        "MATCH (u:users)-[:works_at]->(c:companies) RETURN u LIMIT 10001",
        "MATCH (u:users)-[:works_at]->(c:companies) RETURN u SKIP 9999 LIMIT 10",
    ] {
        let ast = parse(query).unwrap();
        let err = bind(&ast, &fake_catalog()).unwrap_err();
        assert!(
            matches!(err.kind, GqlErrorKind::Unsupported { .. }),
            "{query}"
        );
    }
}

#[test]
fn binder_accepts_aggregate_return_slots_and_grouping_keys() {
    let logical = bind_query(
        "MATCH (u:users)-[:works_at]->(c:companies) \
         RETURN c.name AS company, count(u) AS users, sum(u.age) AS total_age \
         ORDER BY users DESC",
    );
    let physical = lower(logical);

    assert_eq!(physical.returns.len(), 3);
    assert!(matches!(
        physical.returns[1],
        ReturnSlot::Aggregate {
            func: pggraph::query::logical_plan::AggregateFunc::Count,
            ..
        }
    ));
    assert_eq!(physical.order_by.len(), 1);
}

#[test]
fn binder_orders_aggregate_query_by_returned_property_expression() {
    let logical = bind_query(
        "MATCH (u:users)-[:works_at]->(c:companies) \
         RETURN c.name, count(u) AS users ORDER BY c.name",
    );

    assert_eq!(logical.order_by.len(), 1);
}

#[test]
fn binder_accepts_distinct_return_with_and_aggregates() {
    let logical = bind_query(
        "MATCH (u:users)-[:works_at]->(c:companies) \
         WITH DISTINCT c.name AS company, c \
         RETURN DISTINCT company, count(DISTINCT c) AS companies",
    );
    let physical = lower(logical);

    assert!(physical.distinct);
    assert_eq!(physical.distinct_stages.len(), 1);
    assert_eq!(physical.distinct_stages[0].len(), 2);
    assert!(matches!(
        physical.returns[1],
        ReturnSlot::Aggregate { distinct: true, .. }
    ));
}

#[test]
fn binder_accepts_aggregate_distinct_for_node_scan() {
    let ast = parse("MATCH (u:users) RETURN collect(DISTINCT u.name) AS names").unwrap();

    let plan = bind_statement(&Statement::Read(ast), &fake_catalog()).unwrap();
    let pggraph::query::logical_plan::LogicalStatement::NodeScan(scan) = plan else {
        panic!("expected node scan");
    };

    assert!(matches!(
        scan.returns[0],
        pggraph::query::logical_plan::ReturnBinding::Aggregate { distinct: true, .. }
    ));
}

#[test]
fn binder_rejects_distinct_order_by_non_returned_property() {
    let ast = parse(
        "MATCH (u:users)-[:works_at]->(c:companies) \
         RETURN DISTINCT c.name AS company ORDER BY u.age",
    )
    .unwrap();

    let err = bind(&ast, &fake_catalog()).unwrap_err();

    assert!(matches!(err.kind, GqlErrorKind::Unsupported { .. }));
    assert!(message(&err).contains("DISTINCT queries must ORDER BY"));
}

#[test]
fn binder_rejects_aggregate_order_by_scope_alias_not_returned() {
    let ast = parse_statement(
        "MATCH (u:users) WITH u.name AS name, u RETURN count(*) AS total ORDER BY name",
    )
    .unwrap();

    let err = bind_statement(&ast, &fake_catalog()).unwrap_err();

    assert!(matches!(err.kind, GqlErrorKind::Unsupported { .. }));
    assert!(message(&err).contains("aggregate queries must ORDER BY"));
}

#[test]
fn binder_rejects_delete_return_aggregates() {
    let ast = parse_statement(
        "MATCH (u:users)-[r:friend]->(v:users) DELETE r RETURN count(*)",
    )
    .unwrap();

    let err = bind_statement(&ast, &fake_catalog()).unwrap_err();

    assert!(matches!(err.kind, GqlErrorKind::Unsupported { .. }));
    assert!(message(&err).contains("aggregates over DELETE"));
}

#[test]
fn binder_rejects_variable_length_relationship_return() {
    let logical = bind_query("MATCH (u:users)-[r:works_at*1..2]->(c:companies) RETURN r");
    let physical = lower(logical);

    assert!(matches!(physical.returns[0], ReturnSlot::Path { .. }));
}

#[test]
fn binder_accepts_path_functions_over_relationship_variables() {
    let logical = bind_query(
        "MATCH (u:users)-[r:works_at*1..2]->(c:companies) \
         RETURN nodes(r) AS ns, relationships(r) AS rs, length(r) AS len ORDER BY len DESC",
    );
    let physical = lower(logical);

    assert!(matches!(
        physical.returns[0],
        ReturnSlot::PathFunction {
            func: pggraph::query::logical_plan::PathFunc::Nodes,
            ..
        }
    ));
    assert!(matches!(
        physical.returns[1],
        ReturnSlot::PathFunction {
            func: pggraph::query::logical_plan::PathFunc::Relationships,
            ..
        }
    ));
    assert!(matches!(
        physical.returns[2],
        ReturnSlot::PathFunction {
            func: pggraph::query::logical_plan::PathFunc::Length,
            ..
        }
    ));
    assert_eq!(physical.order_by.len(), 1);
}

#[test]
fn binder_accepts_mixed_case_path_functions() {
    let logical = bind_query(
        "MATCH (u:users)-[r:works_at*1..2]->(c:companies) \
         RETURN NoDeS(r) AS ns, ReLaTiOnShIpS(r) AS rs, LeNgTh(r) AS len",
    );
    let physical = lower(logical);

    assert!(matches!(
        physical.returns[0],
        ReturnSlot::PathFunction {
            func: pggraph::query::logical_plan::PathFunc::Nodes,
            ..
        }
    ));
    assert!(matches!(
        physical.returns[1],
        ReturnSlot::PathFunction {
            func: pggraph::query::logical_plan::PathFunc::Relationships,
            ..
        }
    ));
    assert!(matches!(
        physical.returns[2],
        ReturnSlot::PathFunction {
            func: pggraph::query::logical_plan::PathFunc::Length,
            ..
        }
    ));
}

#[test]
fn binder_rejects_path_functions_outside_return_projection() {
    let ast = parse_statement(
        "MATCH (u:users)-[r:works_at*1..2]->(c:companies) \
         WITH nodes(r) AS ns RETURN ns",
    )
    .unwrap();

    let err = bind_statement(&ast, &fake_catalog()).unwrap_err();

    assert!(matches!(err.kind, GqlErrorKind::Unsupported { .. }));
    assert!(message(&err).contains("path-function WITH projections"));
}

#[test]
fn executor_enforces_hard_row_cap_before_projection() {
    let physical = lower(bind_query(
        "MATCH (u:users)-[:works_at]->(c:companies) RETURN u ORDER BY u.name",
    ));
    let mut engine = Engine::new();
    for idx in 0..10_002 {
        let user_pk = format!("u{idx}");
        let company_pk = format!("c{idx}");
        let user = engine.add_node(10, user_pk.clone());
        let company = engine.add_node(20, company_pk.clone());
                insert_table_membership(&mut engine, 10, user);
        insert_table_membership(&mut engine, 20, company);
    }
    let works_at = register_edge_type(&mut engine, "works_at");
    engine.edge_store = EdgeStore::from_edges(
        node_count(&engine),
        (0..10_002)
            .map(|idx| edge(idx * 2, idx * 2 + 1, works_at))
            .collect(),
        false,
    );
    engine.reverse_edge_store = reversed(&engine.edge_store);
    engine.built = true;

    let err = execute(&engine, &physical, None).unwrap_err();

    assert!(matches!(err, GraphError::GqlExecution { .. }));
    assert!(message(&err).contains("row cap"));
}

#[test]
fn lowering_preserves_bound_tables_and_return_slots() {
    let logical = bind_query("MATCH (u:users)-[r:works_at]->(c:companies) RETURN c, r, u");
    let physical = lower(logical);

    assert_eq!(physical.source_table_oid, 10);
    assert_eq!(physical.target_table_oid, 20);
    assert_eq!(physical.rel_type, "works_at");
    assert_eq!(physical.rel_var.as_deref(), Some("r"));
    assert_eq!(
        physical.returns,
        vec![
            ReturnSlot::Node {
                side: pggraph::query::logical_plan::BindingSide::Target,
                name: "c".into()
            },
            ReturnSlot::Relationship { name: "r".into() },
            ReturnSlot::Node {
                side: pggraph::query::logical_plan::BindingSide::Source,
                name: "u".into()
            }
        ]
    );
}

#[test]
fn binder_allows_with_aliases_downstream() {
    let logical = bind_query(
        "MATCH (u:users)-[:works_at]->(c:companies) \
         WITH c AS company, u.name AS employee RETURN company, employee",
    );
    let physical = lower(logical);

    assert_eq!(
        physical.returns,
        vec![
            ReturnSlot::Node {
                side: pggraph::query::logical_plan::BindingSide::Target,
                name: "company".into()
            },
            ReturnSlot::Property {
                side: pggraph::query::logical_plan::BindingSide::Source,
                property: "name".into(),
                name: "employee".into()
            }
        ]
    );
}

#[test]
fn binder_with_shadowing_rebinds_name_to_new_scope() {
    let logical = bind_query("MATCH (u:users)-[:works_at]->(c:companies) WITH c AS u RETURN u");
    let physical = lower(logical);

    assert_eq!(
        physical.returns,
        vec![ReturnSlot::Node {
            side: pggraph::query::logical_plan::BindingSide::Target,
            name: "u".into()
        }]
    );
}

#[test]
fn binder_with_scope_does_not_leak_hidden_variables() {
    let ast = parse(
        "MATCH (u:users)-[:works_at]->(c:companies) \
         WITH c AS company RETURN u",
    )
    .unwrap();

    let err = bind(&ast, &fake_catalog()).unwrap_err();

    assert!(matches!(err.kind, GqlErrorKind::Bind { .. }));
    assert!(message(&err).contains("unknown return variable `u`"));
}

#[test]
fn binder_with_property_alias_can_be_returned_and_ordered() {
    let ast = parse_statement(
        "MATCH (u:users) WITH u.name AS name RETURN name ORDER BY name",
    )
    .unwrap();
    let plan = bind_statement(&ast, &fake_catalog()).unwrap();
    let pggraph::query::logical_plan::LogicalStatement::NodeScan(scan) = plan else {
        panic!("expected node scan plan");
    };

    assert_eq!(
        scan.returns,
        vec![pggraph::query::logical_plan::ReturnBinding::Property {
            side: pggraph::query::logical_plan::BindingSide::Source,
            property: "name".into(),
            name: "name".into()
        }]
    );
    assert_eq!(scan.order_by.len(), 1);
}

#[test]
fn binder_with_scope_can_chain_projection_stages() {
    let logical = bind_query(
        "MATCH (u:users)-[:works_at]->(c:companies) \
         WITH c AS company WITH company.name AS company_name RETURN company_name",
    );
    let physical = lower(logical);

    assert_eq!(
        physical.returns,
        vec![ReturnSlot::Property {
            side: pggraph::query::logical_plan::BindingSide::Target,
            property: "name".into(),
            name: "company_name".into()
        }]
    );
}

#[test]
fn binder_rejects_duplicate_pattern_variables_in_initial_scope() {
    for query in [
        "MATCH (u:users)-[:friend]->(u:users) RETURN u",
        "MATCH (u:users)-[u:friend]->(v:users) RETURN u",
    ] {
        let ast = parse(query).unwrap();
        let err = bind(&ast, &fake_catalog()).unwrap_err();

        assert!(
            matches!(err.kind, GqlErrorKind::Bind { .. }),
            "{query}: {err:?}"
        );
        assert!(message(&err).contains("duplicate variable"), "{query}");
    }
}

#[test]
fn binder_orders_by_with_scalar_alias_not_returned() {
    let ast = parse_statement(
        "MATCH (u:users) WITH u.name AS name, u RETURN u ORDER BY name",
    )
    .unwrap();
    let plan = bind_statement(&ast, &fake_catalog()).unwrap();
    let pggraph::query::logical_plan::LogicalStatement::NodeScan(scan) = plan else {
        panic!("expected node scan plan");
    };

    assert_eq!(
        scan.returns,
        vec![pggraph::query::logical_plan::ReturnBinding::Node {
            side: pggraph::query::logical_plan::BindingSide::Source,
            name: "u".into()
        }]
    );
    assert_eq!(scan.order_by.len(), 1);
}

#[test]
fn value_projection_returns_relationship_coordinates() {
    let logical = bind_query("MATCH (u:users)-[r:works_at]->(c:companies) RETURN r");
    let physical = lower(logical);
    let engine = engine_fixture();
    let rows = execute(&engine, &physical, None).unwrap();

    let projected = project_rows(
        rows,
        &physical,
        &HydratedRows::new(),
        &QueryParams::new(),
        false,
    )
    .unwrap();

    assert_eq!(projected.len(), 2);
    assert_eq!(projected[0]["r"]["_type"], "works_at");
    assert_eq!(projected[0]["r"]["_start"]["table"], "users");
    assert_eq!(projected[0]["r"]["_start"]["id"], "u1");
    assert_eq!(projected[0]["r"]["_end"]["table"], "companies");
    assert_eq!(projected[0]["r"]["_end"]["id"], "c1");
}

#[test]
fn value_projection_returns_inbound_relationship_orientation() {
    let logical = bind_query("MATCH (c:companies)<-[r:works_at]-(u:users) RETURN r");
    let physical = lower(logical);
    let engine = engine_fixture();
    let rows = execute(&engine, &physical, None).unwrap();

    let projected = project_rows(
        rows,
        &physical,
        &HydratedRows::new(),
        &QueryParams::new(),
        false,
    )
    .unwrap();

    assert_eq!(projected.len(), 2);
    assert_eq!(projected[0]["r"]["_type"], "works_at");
    assert_eq!(projected[0]["r"]["_start"]["table"], "users");
    assert_eq!(projected[0]["r"]["_start"]["id"], "u1");
    assert_eq!(projected[0]["r"]["_end"]["table"], "companies");
    assert_eq!(projected[0]["r"]["_end"]["id"], "c1");
}

#[test]
fn value_projection_preserves_undirected_opposite_relationships() {
    let logical = bind_query("MATCH (u:users)-[r:works_at]-(c:companies) RETURN r");
    let physical = lower(logical);
    let mut engine = engine_fixture();
    let works_at = register_edge_type(&mut engine, "works_at");
    engine.edge_store = EdgeStore::from_edges(
        node_count(&engine),
        vec![
            edge(0, 2, works_at),
            edge(2, 0, works_at),
        ],
        false,
    );
    engine.reverse_edge_store = reversed(&engine.edge_store);
    let rows = execute(&engine, &physical, None).unwrap();

    let projected = project_rows(
        rows,
        &physical,
        &HydratedRows::new(),
        &QueryParams::new(),
        false,
    )
    .unwrap();

    assert_eq!(projected.len(), 2);
    assert_eq!(projected[0]["r"]["_start"]["table"], "users");
    assert_eq!(projected[0]["r"]["_start"]["id"], "u1");
    assert_eq!(projected[0]["r"]["_end"]["table"], "companies");
    assert_eq!(projected[0]["r"]["_end"]["id"], "c1");
    assert_eq!(projected[1]["r"]["_start"]["table"], "companies");
    assert_eq!(projected[1]["r"]["_start"]["id"], "c1");
    assert_eq!(projected[1]["r"]["_end"]["table"], "users");
    assert_eq!(projected[1]["r"]["_end"]["id"], "u1");
}

#[test]
fn executor_returns_one_hop_coordinate_rows() {
    let logical = bind_query("MATCH (u:users)-[:works_at]->(c:companies) RETURN u, c");
    let physical = lower(logical);
    let engine = engine_fixture();

    let rows = execute(&engine, &physical, None).unwrap();

    assert_eq!(rows.len(), 2);
    assert_eq!(rows[0].source.table_oid, 10);
    assert_eq!(rows[0].source.node_id, "u1");
    let target = rows[0].target.as_ref().expect("target");
    assert_eq!(target.table_oid, 20);
    assert_eq!(target.node_id, "c1");
    assert_eq!(rows[1].source.node_id, "u2");
}

#[test]
fn optional_match_null_extends_unmatched_source_rows() {
    let logical = bind_query("OPTIONAL MATCH (u:users)-[:works_at]->(c:companies) RETURN u, c");
    let physical = lower(logical);
    let mut engine = engine_fixture();
    let u3 = engine.add_node(10, "u3".to_string());
    insert_table_membership(&mut engine, 10, u3);

    let rows = execute(&engine, &physical, None).unwrap();

    assert_eq!(rows.len(), 3);
    assert_eq!(rows[2].source.node_id, "u3");
    assert!(rows[2].target.is_none());
}

#[test]
fn optional_match_predicate_miss_null_extends_source_row() {
    let logical = bind_query(
        "OPTIONAL MATCH (u:users)-[:works_at]->(c:companies) \
         WHERE c.name = 'Acme' RETURN u, c",
    );
    let physical = lower(logical);
    let engine = engine_fixture();
    let rows = execute(&engine, &physical, None).unwrap();
    let projected = project_rows(
        rows,
        &physical,
        &hydrated_fixture(),
        &QueryParams::new(),
        true,
    )
    .unwrap();

    assert_eq!(projected.len(), 2);
    assert_eq!(projected[0]["u"]["id"], "u1");
    assert_eq!(projected[0]["c"]["id"], "c1");
    assert_eq!(projected[1]["u"]["id"], "u2");
    assert!(projected[1]["c"].is_null());
}

#[test]
fn aggregate_projection_groups_and_computes_numeric_values() {
    let logical = bind_query(
        "MATCH (u:users)-[:works_at]->(c:companies) \
         RETURN c.name AS company,
                count(u) AS users,
                sum(u.age) AS total_age,
                avg(u.age) AS avg_age,
                min(u.age) AS youngest,
                max(u.age) AS oldest,
                collect(u.name) AS names
         ORDER BY company",
    );
    let physical = lower(logical);
    let engine = engine_fixture();
    let rows = execute(&engine, &physical, None).unwrap();
    let projected = project_rows(
        rows,
        &physical,
        &hydrated_fixture(),
        &QueryParams::new(),
        true,
    )
    .unwrap();

    assert_eq!(projected.len(), 2);
    assert_eq!(projected[0]["company"], "Acme");
    assert_eq!(projected[0]["users"], 1);
    assert_eq!(projected[0]["total_age"], 37.0);
    assert_eq!(projected[0]["avg_age"], 37.0);
    assert_eq!(projected[0]["youngest"], 37);
    assert_eq!(projected[0]["oldest"], 37);
    assert_eq!(projected[0]["names"], json(r#"["Ada"]"#));
}

#[test]
fn aggregate_projection_returns_empty_group_for_empty_input() {
    let ast = parse_statement(
        "MATCH (u:users) WHERE u.name = 'Missing' \
         RETURN count(*) AS rows, sum(u.age) AS total_age, collect(u.name) AS names",
    )
    .unwrap();
    let logical = bind_statement(&ast, &fake_catalog()).unwrap();
    let PhysicalStatement::NodeScan(physical) = lower_statement(logical)
    else {
        panic!("expected node scan");
    };
    let engine = engine_fixture();
    let rows = execute_node_scan(&engine, &physical, None).unwrap();
    let projected = project_node_rows(
        rows,
        &physical,
        &hydrated_fixture(),
        &QueryParams::new(),
        true,
    )
    .unwrap();

    assert_eq!(projected.len(), 1);
    assert_eq!(projected[0]["rows"], 0);
    assert!(projected[0]["total_age"].is_null());
    assert_eq!(projected[0]["names"], json(r#"[]"#));
}

#[test]
fn aggregate_limit_does_not_truncate_input_rows() {
    let logical =
        bind_query("MATCH (u:users)-[:works_at]->(c:companies) RETURN count(*) AS rows LIMIT 1");
    let physical = lower(logical);
    let engine = engine_fixture();
    let rows = execute(&engine, &physical, None).unwrap();
    let projected = project_rows(
        rows,
        &physical,
        &hydrated_fixture(),
        &QueryParams::new(),
        true,
    )
    .unwrap();

    assert_eq!(physical.execution_row_cap(), 10_000);
    assert!(physical.cap_exhaustion_is_error());
    assert_eq!(projected, vec![json(r#"{"rows": 2}"#)]);
}

#[test]
fn path_projection_returns_stable_path_value_and_functions() {
    let logical = bind_query(
        "MATCH (u:users)-[p:works_at*1..2]->(c:companies) \
         RETURN p, nodes(p) AS ns, relationships(p) AS rs, length(p) AS len \
         ORDER BY len DESC",
    );
    let physical = lower(logical);
    let mut engine = engine_fixture();
    let works_at = engine
        .edge_type_registry
        .iter()
        .position(|label| label == "works_at")
        .expect("works_at edge type missing") as u8;
    engine.edge_store = EdgeStore::from_edges(
        node_count(&engine),
        vec![
            edge(0, 2, works_at),
            edge(2, 3, works_at),
        ],
        false,
    );
    engine.reverse_edge_store = reversed(&engine.edge_store);
    let rows = execute(&engine, &physical, None).unwrap();
    let projected = project_rows(
        rows,
        &physical,
        &hydrated_fixture(),
        &QueryParams::new(),
        true,
    )
    .unwrap();

    assert_eq!(projected.len(), 2);
    assert_eq!(projected[0]["len"], 2);
    assert_eq!(projected[0]["ns"][0]["_id"]["table"], "users");
    assert_eq!(projected[0]["ns"][0]["id"], "u1");
    assert_eq!(projected[0]["ns"][1]["_id"]["table"], "companies");
    assert_eq!(projected[0]["ns"][1]["id"], "c1");
    assert_eq!(projected[0]["ns"][2]["id"], "c2");
    assert_eq!(
        projected[0]["rs"].as_array().expect("relationships").len(),
        2
    );
    assert_eq!(projected[0]["rs"][0]["_type"], "works_at");
    assert_eq!(projected[0]["rs"][0]["_start"]["id"], "u1");
    assert_eq!(projected[0]["rs"][0]["_end"]["id"], "c1");
    assert_eq!(projected[0]["p"]["_path"]["nodes"], projected[0]["ns"]);
    assert_eq!(
        projected[0]["p"]["_path"]["relationships"],
        projected[0]["rs"]
    );
}

#[test]
fn path_projection_preserves_distinct_paths_to_same_target() {
    let logical = bind_query(
        "MATCH (u:users)-[p:friend*1..2]->(v:users) \
         WHERE u.id = 'u1' AND v.id = 'u3' RETURN length(p) AS len ORDER BY len",
    );
    let physical = lower(logical);
    let mut engine = Engine::new();
    for pk in ["u1", "u2", "u3"] {
        let node_idx = engine.add_node(10, pk.to_string());
            insert_table_membership(&mut engine, 10, node_idx);
    }
    let friend = register_edge_type(&mut engine, "friend");
    engine.edge_store = EdgeStore::from_edges(
        node_count(&engine),
        vec![
            edge(0, 2, friend),
            edge(0, 1, friend),
            edge(1, 2, friend),
        ],
        false,
    );
    engine.reverse_edge_store = reversed(&engine.edge_store);
    engine.built = true;
    let hydrated = hydrated_rows(vec![
        (
            (10, "u1".to_string()),
            json(r#"{"id": "u1", "name": "Ada"}"#),
        ),
        (
            (10, "u2".to_string()),
            json(r#"{"id": "u2", "name": "Linus"}"#),
        ),
        (
            (10, "u3".to_string()),
            json(r#"{"id": "u3", "name": "Grace"}"#),
        ),
    ]);
    let rows = execute(&engine, &physical, None).unwrap();
    let projected = project_rows(rows, &physical, &hydrated, &QueryParams::new(), true).unwrap();

    assert_eq!(
        projected
            .iter()
            .map(|row| row["len"].as_u64().expect("path length"))
            .collect::<Vec<_>>(),
        vec![1, 2]
    );
}

#[test]
fn variable_length_cardinality_does_not_depend_on_returning_path_values() {
    let path_query = lower(bind_query(
        "MATCH (u:users)-[p:friend*1..2]->(v:users) \
         WHERE u.id = 'u1' AND v.id = 'u3' RETURN length(p) AS len ORDER BY len",
    ));
    let count_query = lower(bind_query(
        "MATCH (u:users)-[p:friend*1..2]->(v:users) \
         WHERE u.id = 'u1' AND v.id = 'u3' RETURN count(*) AS paths",
    ));
    let mut engine = Engine::new();
    for pk in ["u1", "u2", "u3"] {
        let node_idx = engine.add_node(10, pk.to_string());
            insert_table_membership(&mut engine, 10, node_idx);
    }
    let friend = register_edge_type(&mut engine, "friend");
    engine.edge_store = EdgeStore::from_edges(
        node_count(&engine),
        vec![
            edge(0, 2, friend),
            edge(0, 1, friend),
            edge(1, 2, friend),
        ],
        false,
    );
    engine.reverse_edge_store = reversed(&engine.edge_store);
    engine.built = true;
    let hydrated = hydrated_rows(vec![
        (
            (10, "u1".to_string()),
            json(r#"{"id": "u1", "name": "Ada"}"#),
        ),
        (
            (10, "u2".to_string()),
            json(r#"{"id": "u2", "name": "Linus"}"#),
        ),
        (
            (10, "u3".to_string()),
            json(r#"{"id": "u3", "name": "Grace"}"#),
        ),
    ]);

    let path_rows = execute(&engine, &path_query, None).unwrap();
    let count_rows = execute(&engine, &count_query, None).unwrap();
    let path_projected =
        project_rows(path_rows, &path_query, &hydrated, &QueryParams::new(), true).unwrap();
    let count_projected = project_rows(
        count_rows,
        &count_query,
        &hydrated,
        &QueryParams::new(),
        true,
    )
    .unwrap();

    assert_eq!(path_projected.len(), 2);
    assert_eq!(count_projected, vec![json(r#"{"paths": 2}"#)]);
}

#[test]
fn explicit_single_hop_variable_length_preserves_path_distinct_matches() {
    let path_query = lower(bind_query(
        "MATCH (u:users)-[p:friend*1..1]-(v:users) \
         WHERE u.id = 'u1' AND v.id = 'u2' RETURN length(p) AS len ORDER BY len",
    ));
    let count_query = lower(bind_query(
        "MATCH (u:users)-[p:friend*1..1]-(v:users) \
         WHERE u.id = 'u1' AND v.id = 'u2' RETURN count(*) AS paths",
    ));
    let mut engine = Engine::new();
    for pk in ["u1", "u2"] {
        let node_idx = engine.add_node(10, pk.to_string());
            insert_table_membership(&mut engine, 10, node_idx);
    }
    let friend = register_edge_type(&mut engine, "friend");
    engine.edge_store = EdgeStore::from_edges(
        node_count(&engine),
        vec![
            edge(0, 1, friend),
            edge(1, 0, friend),
        ],
        false,
    );
    engine.reverse_edge_store = reversed(&engine.edge_store);
    engine.built = true;
    let hydrated = hydrated_rows(vec![
        ((10, "u1".to_string()), json(r#"{"id": "u1"}"#)),
        ((10, "u2".to_string()), json(r#"{"id": "u2"}"#)),
    ]);

    let path_rows = execute(&engine, &path_query, None).unwrap();
    let count_rows = execute(&engine, &count_query, None).unwrap();
    let path_projected =
        project_rows(path_rows, &path_query, &hydrated, &QueryParams::new(), true).unwrap();
    let count_projected = project_rows(
        count_rows,
        &count_query,
        &hydrated,
        &QueryParams::new(),
        true,
    )
    .unwrap();

    assert_eq!(path_projected.len(), 2);
    assert_eq!(
        path_projected
            .iter()
            .map(|row| row["len"].as_u64().expect("path length"))
            .collect::<Vec<_>>(),
        vec![1, 1]
    );
    assert_eq!(count_projected, vec![json(r#"{"paths": 2}"#)]);
}

#[test]
fn optional_path_functions_return_null_for_unmatched_rows() {
    let logical = bind_query(
        "OPTIONAL MATCH (u:users)-[p:works_at]->(c:companies) \
         WHERE c.name = 'Missing' RETURN nodes(p) AS ns, relationships(p) AS rs, length(p) AS len",
    );
    let physical = lower(logical);
    let engine = engine_fixture();
    let rows = execute(&engine, &physical, None).unwrap();
    let projected = project_rows(
        rows,
        &physical,
        &hydrated_fixture(),
        &QueryParams::new(),
        true,
    )
    .unwrap();

    assert_eq!(projected.len(), 2);
    assert!(projected.iter().all(|row| row["ns"].is_null()));
    assert!(projected.iter().all(|row| row["rs"].is_null()));
    assert!(projected.iter().all(|row| row["len"].is_null()));
}

#[test]
fn relationship_node_projection_errors_when_required_hydration_is_missing() {
    let logical = bind_query("MATCH (u:users)-[:works_at]->(c:companies) RETURN u");
    let physical = lower(logical);
    let engine = engine_fixture();
    let rows = execute(&engine, &physical, None).unwrap();
    let err = project_rows(
        rows,
        &physical,
        &HydratedRows::new(),
        &QueryParams::new(),
        true,
    )
    .unwrap_err();

    assert!(matches!(err, GraphError::GqlExecution { .. }));
    assert!(message(&err).contains("could not hydrate"));
}

#[test]
fn node_scan_projection_errors_when_required_hydration_is_missing() {
    let ast = parse_statement("MATCH (u:users) RETURN u").unwrap();
    let logical = bind_statement(&ast, &fake_catalog()).unwrap();
    let pggraph::query::logical_plan::LogicalStatement::NodeScan(scan) = logical else {
        panic!("expected node scan");
    };
    let physical = lower_statement(pggraph::query::logical_plan::LogicalStatement::NodeScan(scan));
    let PhysicalStatement::NodeScan(physical) = physical else {
        panic!("expected physical node scan");
    };
    let engine = engine_fixture();
    let rows = execute_node_scan(&engine, &physical, None).unwrap();
    let err = project_node_rows(
        rows,
        &physical,
        &HydratedRows::new(),
        &QueryParams::new(),
        true,
    )
    .unwrap_err();

    assert!(matches!(err, GraphError::GqlExecution { .. }));
    assert!(message(&err).contains("could not hydrate"));
}

#[test]
fn missing_hydrated_property_does_not_match_is_null_predicate() {
    let logical = bind_query(
        "MATCH (u:users)-[:works_at]->(c:companies) WHERE u.name IS NULL RETURN u.name AS name",
    );
    let physical = lower(logical);
    let engine = engine_fixture();
    let rows = execute(&engine, &physical, None).unwrap();
    let err = value::filter_rows(&rows, &physical, &HydratedRows::new(), &QueryParams::new())
        .unwrap_err();

    assert!(matches!(err, GraphError::GqlExecution { .. }));
    assert!(message(&err).contains("could not hydrate"));
}

#[test]
fn optional_aggregate_counts_null_extended_rows_like_left_join() {
    let logical = bind_query(
        "OPTIONAL MATCH (u:users)-[:works_at]->(c:companies) \
         WHERE c.name = 'Acme' RETURN count(*) AS source_rows, count(c) AS matched_targets",
    );
    let physical = lower(logical);
    let engine = engine_fixture();
    let rows = execute(&engine, &physical, None).unwrap();
    let projected = project_rows(
        rows,
        &physical,
        &hydrated_fixture(),
        &QueryParams::new(),
        true,
    )
    .unwrap();

    assert_eq!(projected.len(), 1);
    assert_eq!(projected[0]["source_rows"], 2);
    assert_eq!(projected[0]["matched_targets"], 1);
}

#[test]
fn optional_collect_skips_null_extended_values() {
    let logical = bind_query(
        "OPTIONAL MATCH (u:users)-[:works_at]->(c:companies) \
         WHERE c.name = 'Acme'
         RETURN collect(c.name) AS names, collect(DISTINCT c.name) AS distinct_names",
    );
    let physical = lower(logical);
    let engine = engine_fixture();
    let rows = execute(&engine, &physical, None).unwrap();
    let projected = project_rows(
        rows,
        &physical,
        &hydrated_fixture(),
        &QueryParams::new(),
        true,
    )
    .unwrap();

    assert_eq!(projected.len(), 1);
    assert_eq!(projected[0]["names"], json(r#"["Acme"]"#));
    assert_eq!(projected[0]["distinct_names"], json(r#"["Acme"]"#));
}

#[test]
fn distinct_return_deduplicates_before_order_and_limit() {
    let logical = bind_query(
        "MATCH (u:users)-[:works_at]->(c:companies) \
         RETURN DISTINCT c.name AS company ORDER BY company LIMIT 1",
    );
    let physical = lower(logical);
    let mut engine = engine_fixture();
    let works_at = register_edge_type(&mut engine, "works_at");
    engine.edge_store = EdgeStore::from_edges(
        node_count(&engine),
        vec![
            edge(0, 2, works_at),
            edge(1, 2, works_at),
            edge(1, 3, works_at),
        ],
        false,
    );
    engine.reverse_edge_store = reversed(&engine.edge_store);
    let rows = execute(&engine, &physical, None).unwrap();
    let projected = project_rows(
        rows,
        &physical,
        &hydrated_fixture(),
        &QueryParams::new(),
        true,
    )
    .unwrap();

    assert_eq!(projected, vec![json(r#"{"company": "Acme"}"#)]);
}

#[test]
fn with_distinct_deduplicates_input_to_later_aggregate() {
    let logical = bind_query(
        "MATCH (u:users)-[:works_at]->(c:companies) \
         WITH DISTINCT c.name AS company \
         RETURN count(*) AS companies",
    );
    let physical = lower(logical);
    let mut engine = engine_fixture();
    let works_at = register_edge_type(&mut engine, "works_at");
    engine.edge_store = EdgeStore::from_edges(
        node_count(&engine),
        vec![
            edge(0, 2, works_at),
            edge(1, 2, works_at),
            edge(1, 3, works_at),
        ],
        false,
    );
    engine.reverse_edge_store = reversed(&engine.edge_store);
    let rows = execute(&engine, &physical, None).unwrap();
    let projected = project_rows(
        rows,
        &physical,
        &hydrated_fixture(),
        &QueryParams::new(),
        true,
    )
    .unwrap();

    assert_eq!(projected, vec![json(r#"{"companies": 2}"#)]);
}

#[test]
fn aggregate_distinct_deduplicates_inputs_per_group() {
    let logical = bind_query(
        "MATCH (u:users)-[:works_at]->(c:companies) \
         RETURN count(DISTINCT c.name) AS companies, collect(DISTINCT c.name) AS names",
    );
    let physical = lower(logical);
    let mut engine = engine_fixture();
    let works_at = register_edge_type(&mut engine, "works_at");
    engine.edge_store = EdgeStore::from_edges(
        node_count(&engine),
        vec![
            edge(0, 2, works_at),
            edge(1, 2, works_at),
            edge(1, 3, works_at),
        ],
        false,
    );
    engine.reverse_edge_store = reversed(&engine.edge_store);
    let rows = execute(&engine, &physical, None).unwrap();
    let projected = project_rows(
        rows,
        &physical,
        &hydrated_fixture(),
        &QueryParams::new(),
        true,
    )
    .unwrap();

    assert_eq!(projected.len(), 1);
    assert_eq!(projected[0]["companies"], 2);
    assert_eq!(projected[0]["names"], json(r#"["Acme", "Bell"]"#));
}

#[test]
fn distinct_projection_aborts_when_key_cap_is_exceeded() {
    let ast = parse_statement("MATCH (u:users) RETURN DISTINCT u.name").unwrap();
    let logical = bind_statement(&ast, &fake_catalog()).unwrap();
    let PhysicalStatement::NodeScan(physical) = lower_statement(logical)
    else {
        panic!("expected node scan");
    };
    let rows = (0..10_001)
        .map(|idx| GqlNodeRow {
            node: GqlNodeCoordinate {
                table_oid: 10,
                node_id: format!("u{idx}"),
            },
        })
        .collect::<Vec<_>>();
    let hydrated = (0..10_001)
        .map(|idx| {
            (
                (10, format!("u{idx}")),
                json(&format!("{{\"id\": \"u{idx}\", \"name\": \"user-{idx}\"}}")),
            )
        })
        .collect::<Vec<_>>();
    let hydrated = hydrated_rows(hydrated);

    let err = project_node_rows(rows, &physical, &hydrated, &QueryParams::new(), true).unwrap_err();

    assert!(matches!(err, GraphError::GqlExecution { .. }));
    assert!(message(&err).contains("DISTINCT key cap"));
}

#[test]
fn executor_node_scan_reads_graph_and_transaction_nodes() {
    let ast = parse_statement("MATCH (u:users) RETURN u").unwrap();
    let logical = bind_statement(&ast, &fake_catalog()).unwrap();
    let PhysicalStatement::NodeScan(physical) = lower_statement(logical)
    else {
        panic!("expected node scan");
    };
    let engine = engine_fixture();
    let mut tx = clean_tx();
    tx_delta::record_added_node(&mut tx, 10, "u3", None).expect("record tx node");

    let rows = execute::execute_node_scan(&engine, &tx, &physical, None).unwrap();

    assert_eq!(
        rows.iter()
            .map(|row| row.node.node_id.as_str())
            .collect::<Vec<_>>(),
        vec!["u1", "u2", "u3"]
    );
}

#[test]
fn executor_node_scan_hides_unscoped_transaction_nodes_under_tenant_scope() {
    let ast = parse_statement("MATCH (u:users) RETURN u").unwrap();
    let logical = bind_statement(&ast, &fake_catalog()).unwrap();
    let PhysicalStatement::NodeScan(physical) = lower_statement(logical)
    else {
        panic!("expected node scan");
    };
    let mut engine = engine_fixture();
    engine.tenanted_table_oids.push(10);
    insert_tenant_membership(&mut engine, "tenant-a", 0);
    insert_tenant_membership(&mut engine, "tenant-a", 1);
    let mut tx = clean_tx();
    tx_delta::record_added_node(&mut tx, 10, "u3", None)
        .expect("record unscoped tx node");
    tx_delta::record_added_node(&mut tx, 10, "u4", Some("tenant-a"))
        .expect("record tenant tx node");

    let rows = execute::execute_node_scan(&engine, &tx, &physical, Some("tenant-a")).unwrap();

    assert_eq!(
        rows.iter()
            .map(|row| row.node.node_id.as_str())
            .collect::<Vec<_>>(),
        vec!["u1", "u2", "u4"]
    );
}

#[test]
fn executor_node_scan_keeps_unscoped_transaction_nodes_for_nontenanted_tables() {
    let ast = parse_statement("MATCH (u:users) RETURN u").unwrap();
    let logical = bind_statement(&ast, &fake_catalog()).unwrap();
    let PhysicalStatement::NodeScan(physical) = lower_statement(logical)
    else {
        panic!("expected node scan");
    };
    let engine = engine_fixture();
    let mut tx = clean_tx();
    tx_delta::record_added_node(&mut tx, 10, "u3", None)
        .expect("record unscoped tx node");

    let rows = execute::execute_node_scan(&engine, &tx, &physical, Some("tenant-a")).unwrap();

    assert_eq!(
        rows.iter()
            .map(|row| row.node.node_id.as_str())
            .collect::<Vec<_>>(),
        vec!["u1", "u2", "u3"]
    );
}

#[test]
fn node_scan_projection_filters_inline_predicates() {
    let ast =
        parse_statement("MATCH (u:users {name: 'Ada'}) RETURN u.name AS name").unwrap();
    let logical = bind_statement(&ast, &fake_catalog()).unwrap();
    let PhysicalStatement::NodeScan(physical) = lower_statement(logical)
    else {
        panic!("expected node scan");
    };
    let engine = engine_fixture();
    let rows = execute_node_scan(&engine, &physical, None).unwrap();
    let projected = project_node_rows(
        rows,
        &physical,
        &hydrated_fixture(),
        &QueryParams::new(),
        true,
    )
    .unwrap();

    assert_eq!(projected.len(), 1);
    assert_eq!(projected[0]["name"], "Ada");
}

#[test]
fn node_scan_limit_does_not_hide_later_predicate_matches() {
    let ast = parse_statement("MATCH (u:users {id: 'u3'}) RETURN u LIMIT 1").unwrap();
    let logical = bind_statement(&ast, &fake_catalog()).unwrap();
    let PhysicalStatement::NodeScan(physical) = lower_statement(logical)
    else {
        panic!("expected node scan");
    };
    let engine = engine_fixture();
    let mut tx = clean_tx();
    tx_delta::record_added_node(&mut tx, 10, "u3", None).expect("record tx node");

    let rows = execute::execute_node_scan(&engine, &tx, &physical, None).unwrap();
    let mut hydrated = hydrated_fixture();
    hydrated.insert(10, "u3".to_string(), to_json(&json(r#"{"id": "u3", "name": "Grace"}"#)));
    let projected =
        project_node_rows(rows, &physical, &hydrated, &QueryParams::new(), true).unwrap();

    assert_eq!(projected.len(), 1);
    assert_eq!(projected[0]["u"]["id"], "u3");
}

#[test]
fn executor_filters_wrong_target_table_and_edge_type() {
    let logical = bind_query("MATCH (u:users)-[:works_at]->(c:companies) RETURN u, c");
    let physical = lower(logical);
    let mut engine = engine_fixture();
    let works_at = register_edge_type(&mut engine, "works_at");
    let owns = register_edge_type(&mut engine, "owns");
    engine.edge_store = EdgeStore::from_edges(
        node_count(&engine),
        vec![
            edge(0, 2, works_at),
            edge(0, 1, owns),
            edge(1, 0, works_at),
        ],
        false,
    );

    let rows = execute(&engine, &physical, None).unwrap();

    assert_eq!(rows.len(), 1);
    assert_eq!(rows[0].source.node_id, "u1");
    assert_eq!(rows[0].target.as_ref().expect("target").node_id, "c1");
}

#[test]
fn executor_applies_tenant_scope_to_source_and_target_nodes() {
    let logical = bind_query("MATCH (u:users)-[:works_at]->(c:companies) RETURN u, c");
    let physical = lower(logical);
    let mut engine = engine_fixture();
    engine.tenanted_table_oids.push(10);
    engine.tenanted_table_oids.push(20);
    insert_tenant_membership(&mut engine, "tenant-a", 0);
    insert_tenant_membership(&mut engine, "tenant-b", 2);
    insert_tenant_membership(&mut engine, "tenant-a", 1);
    insert_tenant_membership(&mut engine, "tenant-a", 3);

    let rows = execute(&engine, &physical, Some("tenant-a")).unwrap();

    assert_eq!(rows.len(), 1);
    assert_eq!(rows[0].source.node_id, "u2");
    assert_eq!(rows[0].target.as_ref().expect("target").node_id, "c2");
}

#[test]
fn executor_applies_tenant_scope_to_var_len_and_undirected_frontiers() {
    let var_len = lower(bind_query(
        "MATCH (u:users)-[:works_at*2..2]->(c:companies) RETURN u, c",
    ));
    let undirected = lower(bind_query(
        "MATCH (u:users)-[:works_at]-(c:companies) RETURN u, c",
    ));
    let mut engine = engine_fixture();
    engine.tenanted_table_oids.push(10);
    engine.tenanted_table_oids.push(20);
    insert_tenant_membership(&mut engine, "tenant-a", 0);
    insert_tenant_membership(&mut engine, "tenant-a", 1);
    insert_tenant_membership(&mut engine, "tenant-b", 2);
    insert_tenant_membership(&mut engine, "tenant-a", 3);
    let works_at = engine
        .edge_type_registry
        .iter()
        .position(|label| label == "works_at")
        .expect("works_at edge type missing") as u8;
    engine.edge_store = EdgeStore::from_edges(
        node_count(&engine),
        vec![
            edge(0, 2, works_at),
            edge(2, 3, works_at),
        ],
        false,
    );
    engine.reverse_edge_store = reversed(&engine.edge_store);

    assert!(execute(&engine, &var_len, Some("tenant-a"))
        .unwrap()
        .is_empty());
    assert!(execute(&engine, &undirected, Some("tenant-a"))
        .unwrap()
        .is_empty());
}

#[test]
fn binder_accepts_where_inline_props_and_property_returns() {
    let plan = bind_query(
        "MATCH (u:users {name: $name})-[:works_at]->(c:companies) \
         WHERE c.name = 'Acme' RETURN u.name AS employee, c",
    );

    assert!(plan.predicate.is_some());
    assert_eq!(plan.returns.len(), 2);
}

#[test]
fn binder_rejects_unknown_and_reserved_properties() {
    for query in [
        "MATCH (u:users)-[:works_at]->(c:companies) RETURN u.missing",
        "MATCH (u:users {_id: 'u1'})-[:works_at]->(c:companies) RETURN u",
    ] {
        let ast = parse(query).unwrap();
        let err = bind(&ast, &fake_catalog()).unwrap_err();
        assert!(matches!(err.kind, GqlErrorKind::Bind { .. }), "{query}");
    }
}

#[test]
fn binder_rejects_duplicate_return_names() {
    let ast = parse(
        "MATCH (u:users)-[:works_at]->(c:companies) \
         RETURN u.name AS x, c.name AS x",
    )
    .unwrap();

    let err = bind(&ast, &fake_catalog()).unwrap_err();

    assert!(matches!(err.kind, GqlErrorKind::Bind { .. }));
}

#[test]
fn binder_rejects_deep_boolean_predicates() {
    let mut query = "MATCH (u:users)-[:works_at]->(c:companies) WHERE ".to_string();
    for _ in 0..513 {
        query.push_str("u.id = 'u1' AND ");
    }
    query.push_str("u.id = 'u1' RETURN u");
    let ast = parse(&query).unwrap();

    let err = bind(&ast, &fake_catalog()).unwrap_err();

    assert!(matches!(err.kind, GqlErrorKind::Syntax { .. }));
}

#[test]
fn binder_rejects_excessive_inline_property_predicates() {
    let mut query = "MATCH (u:users {".to_string();
    for idx in 0..513 {
        if idx > 0 {
            query.push_str(", ");
        }
        query.push_str("id: 'u1'");
    }
    query.push_str("})-[:works_at]->(c:companies) RETURN u");
    let ast = parse(&query).unwrap();

    let err = bind(&ast, &fake_catalog()).unwrap_err();

    assert!(matches!(err.kind, GqlErrorKind::Syntax { .. }));
}

#[test]
fn binder_rejects_registered_reserved_property_keys() {
    let catalog = FakeCatalog::new()
        .with_label("users", 10, &["id", "_shadow"])
        .with_label("companies", 20, &["id", "name"])
        .with_edge("works_at", 10, 20);
    let ast = parse("MATCH (u:users)-[:works_at]->(c:companies) RETURN u").unwrap();

    let err = bind(&ast, &catalog).unwrap_err();

    assert!(matches!(err.kind, GqlErrorKind::Bind { .. }));
}

#[test]
fn value_projection_filters_predicates_and_hydrates_nodes() {
    let logical = bind_query(
        "MATCH (u:users)-[:works_at]->(c:companies) \
         WHERE u.name IN ['Ada', 'Grace'] RETURN u.name AS employee, c",
    );
    let physical = lower(logical);
    let engine = engine_fixture();
    let rows = execute(&engine, &physical, None).unwrap();
    let hydrated = hydrated_fixture();

    let projected = project_rows(rows, &physical, &hydrated, &QueryParams::new(), true).unwrap();

    assert_eq!(projected.len(), 1);
    assert_eq!(projected[0]["employee"], "Ada");
    assert_eq!(projected[0]["c"]["name"], "Acme");
    assert_eq!(projected[0]["c"]["_id"]["table"], "companies");
    assert_eq!(projected[0]["c"]["_labels"][0], "companies");
}

fn assert_in_key_order(value: &Json) {
    match value {
        Json::Array(items) => items.iter().for_each(assert_in_key_order),
        Json::Object(entries) => {
            for pair in entries.windows(2) {
                assert!(pair[0].0 < pair[1].0, "{} before {}", pair[0].0, pair[1].0);
            }
            entries.iter().for_each(|(_, value)| assert_in_key_order(value));
        }
        _ => {}
    }
}

#[test]
fn projected_objects_hold_their_entries_by_key() {
    let physical = lower(bind_query(
        "MATCH (u:users)-[r:works_at]->(c:companies) \
         RETURN u.name AS zulu, c, r, u, u.name AS alpha",
    ));
    let rows = execute(&engine_fixture(), &physical, None).unwrap();
    let projected = value::project_rows(
        &rows,
        &physical,
        &hydrated_fixture(),
        &QueryParams::new(),
        true,
        &Vec::new(),
    )
    .unwrap();
    assert!(!projected.is_empty());
    projected.iter().for_each(assert_in_key_order);
    match &projected[0] {
        Json::Object(entries) => {
            let keys: Vec<&str> = entries.iter().map(|(key, _)| key.as_str()).collect();
            assert_eq!(keys, ["alpha", "c", "r", "u", "zulu"]);
        }
        other => panic!("expected an object, got {other:?}"),
    }
}

#[test]
fn value_projection_reports_missing_parameters() {
    let logical = bind_query("MATCH (u:users {name: $name})-[:works_at]->(c:companies) RETURN u");
    let physical = lower(logical);
    let engine = engine_fixture();
    let rows = execute(&engine, &physical, None).unwrap();
    let hydrated = hydrated_fixture();

    let err = project_rows(rows, &physical, &hydrated, &QueryParams::new(), true).unwrap_err();

    assert!(matches!(err, GraphError::GqlParameter { .. }));
    assert!(message(&err).contains("missing GQL parameter"));
}

#[test]
fn value_projection_filters_explicit_null_predicates() {
    let logical = bind_query(
        "MATCH (u:users)-[:works_at]->(c:companies) \
         WHERE c.name IS NULL RETURN c.name AS company_name",
    );
    let physical = lower(logical);
    let engine = engine_fixture();
    let rows = execute(&engine, &physical, None).unwrap();
    let mut hydrated = hydrated_fixture();
    hydrated.insert(20, "c1".to_string(), to_json(&json(r#"{"id": "c1", "name": null}"#)));

    let projected = project_rows(rows, &physical, &hydrated, &QueryParams::new(), true).unwrap();

    assert_eq!(projected.len(), 1);
    assert!(projected[0]["company_name"].is_null());
}

#[test]
fn value_projection_reads_jsonb_paths_and_distinguishes_missing_from_null() {
    let logical = bind_query(
        "MATCH (u:users)-[:works_at]->(c:companies) \
         WHERE u.profile.plan = 'pro' AND u.profile.explicit_null IS NULL \
         RETURN u.profile.tags AS tags, u.profile.flags AS flags, u.profile.missing AS missing",
    );
    let physical = lower(logical);
    let engine = engine_fixture();
    let rows = execute(&engine, &physical, None).unwrap();
    let hydrated = hydrated_fixture();

    let projected = project_rows(rows, &physical, &hydrated, &QueryParams::new(), true).unwrap();

    assert_eq!(projected.len(), 1);
    assert_eq!(projected[0]["tags"], json(r#"["founder", 7]"#));
    assert_eq!(projected[0]["flags"], json(r#"{"beta": true}"#));
    assert!(projected[0]["missing"].is_null());

    let missing_null_query = bind_query(
        "MATCH (u:users)-[:works_at]->(c:companies) \
         WHERE u.profile.missing IS NULL RETURN u.name AS name",
    );
    let missing_physical = lower(missing_null_query);
    let rows = execute(&engine, &missing_physical, None).unwrap();
    let missing_projected = project_rows(
        rows,
        &missing_physical,
        &hydrated,
        &QueryParams::new(),
        true,
    )
    .unwrap();

    assert!(missing_projected.is_empty());
}

#[test]
fn value_projection_reports_non_orderable_predicate_types() {
    let logical = bind_query(
        "MATCH (u:users)-[:works_at]->(c:companies) \
         WHERE u.name > 42 RETURN u",
    );
    let physical = lower(logical);
    let engine = engine_fixture();
    let rows = execute(&engine, &physical, None).unwrap();
    let hydrated = hydrated_fixture();

    let err = project_rows(rows, &physical, &hydrated, &QueryParams::new(), true).unwrap_err();

    assert!(matches!(err, GraphError::GqlExecution { .. }));
    assert!(message(&err).contains("ordered comparisons"));
}

#[test]
fn value_projection_honors_hydrate_false_shape() {
    let logical = bind_query(
        "MATCH (u:users)-[:works_at]->(c:companies) \
         RETURN u, c.name AS company_name",
    );
    let physical = lower(logical);
    let engine = engine_fixture();
    let rows = execute(&engine, &physical, None).unwrap();
    let hydrated = hydrated_fixture();

    let projected = project_rows(rows, &physical, &hydrated, &QueryParams::new(), false).unwrap();

    assert_eq!(projected.len(), 2);
    assert_eq!(projected[0]["u"]["_id"]["id"], "u1");
    assert_eq!(projected[0]["u"]["_labels"][0], "users");
    assert!(projected[0]["u"].get("name").is_none());
    assert_eq!(projected[0]["company_name"], "Acme");
}

#[test]
fn explain_contains_stable_1b_plan_shape() {
    let logical = bind_query("MATCH (u:users)-[:works_at]->(c:companies) RETURN u, c");
    let physical = lower(logical);

    assert_eq!(
        explain(&physical),
        "Expand(source=u:users, rel=works_at, hops=1..1, target=c:companies, return=[u, c])"
    );
}

#[test]
fn explain_marks_optional_relationship_expands() {
    let logical = bind_query("OPTIONAL MATCH (u:users)-[:works_at]->(c:companies) RETURN u, c");
    let physical = lower(logical);

    assert_eq!(
        explain(&physical),
        "OptionalExpand(source=u:users, rel=works_at, hops=1..1, target=c:companies, return=[u, c])"
    );
}

#[test]
fn executor_supports_inbound_undirected_and_bounded_var_length() {
    let inbound = lower(bind_query(
        "MATCH (c:companies)<-[:works_at]-(u:users) RETURN c, u",
    ));
    let undirected = lower(bind_query(
        "MATCH (u:users)-[:works_at]-(c:companies) RETURN u, c",
    ));
    let var_len = lower(bind_query(
        "MATCH (u:users)-[:works_at*1..2]->(c:companies) RETURN u, c",
    ));
    let engine = engine_fixture();

    assert_eq!(execute(&engine, &inbound, None).unwrap().len(), 2);
    assert_eq!(execute(&engine, &undirected, None).unwrap().len(), 2);
    assert_eq!(execute(&engine, &var_len, None).unwrap().len(), 2);
}

#[test]
fn projection_orders_skips_and_limits_rows() {
    let logical = bind_query(
        "MATCH (u:users)-[:works_at]->(c:companies) \
         RETURN u.name AS employee ORDER BY employee DESC SKIP 1 LIMIT 1",
    );
    let physical = lower(logical);
    let engine = engine_fixture();
    let rows = execute(&engine, &physical, None).unwrap();
    let hydrated = hydrated_fixture();

    let projected = project_rows(rows, &physical, &hydrated, &QueryParams::new(), true).unwrap();

    assert_eq!(projected.len(), 1);
    assert_eq!(projected[0]["employee"], "Ada");
}

fn hydrated_fixture() -> HydratedRows {
    hydrated_rows(vec![
        (
            (10, "u1".to_string()),
            json(r#"{ "id": "u1", "name": "Ada", "age": 37, "profile": { "plan": "pro", "tags": ["founder", 7], "flags": {"beta": true}, "explicit_null": null } }"#),
        ),
        (
            (10, "u2".to_string()),
            json(r#"{ "id": "u2", "name": "Linus", "age": 41, "profile": { "plan": "free", "tags": ["kernel"], "flags": {"beta": false} } }"#),
        ),
        (
            (20, "c1".to_string()),
            json(r#"{"id": "c1", "name": "Acme"}"#),
        ),
        (
            (20, "c2".to_string()),
            json(r#"{"id": "c2", "name": "Bell"}"#),
        ),
    ])
}

fn engine_fixture() -> Engine {
    let mut engine = Engine::new();
    for (oid, pk) in [(10, "u1"), (10, "u2"), (20, "c1"), (20, "c2")] {
        let node_idx = engine.add_node(oid, pk.to_string());
        insert_table_membership(&mut engine, oid, node_idx);
    }
    let works_at = register_edge_type(&mut engine, "works_at");
    engine.edge_store = EdgeStore::from_edges(
        node_count(&engine),
        vec![
            edge(0, 2, works_at),
            edge(1, 3, works_at),
        ],
        false,
    );
    engine.reverse_edge_store = reversed(&engine.edge_store);
    engine.built = true;
    engine
}

// ---------------------------------------------------------------------------
// Joins, wildcard paths and node scans
// ---------------------------------------------------------------------------

fn join_plan(query: &str) -> PhysicalJoinPlan {
    let statement = parse_statement(query).unwrap();
    match lower_statement(bind_statement(&statement, &fake_catalog()).unwrap()) {
        PhysicalStatement::JoinRead(plan) => plan,
        other => panic!("expected a join: {other:?}"),
    }
}

fn wildcard_plan(query: &str) -> PhysicalWildcardPathPlan {
    let statement = parse_statement(query).unwrap();
    match lower_statement(bind_statement(&statement, &fake_catalog()).unwrap()) {
        PhysicalStatement::WildcardPathRead(plan) => plan,
        other => panic!("expected a wildcard path: {other:?}"),
    }
}

fn node_keys(nodes: &[GqlNodeCoordinate]) -> Vec<String> {
    nodes.iter().map(|node| node.node_id.clone()).collect()
}

#[test]
fn join_binds_shared_variables_once() {
    let plan = join_plan(
        "MATCH (a:users)-[:works_at]->(c:companies), (b:users)-[:works_at]->(c:companies) \
         RETURN a, b, c",
    );
    let mut engine = engine_fixture();
    let works_at = engine
        .edge_type_registry
        .iter()
        .position(|label| label == "works_at")
        .expect("works_at edge type missing") as u8;
    engine.edge_store = EdgeStore::from_edges(
        node_count(&engine),
        vec![edge(0, 2, works_at), edge(1, 2, works_at)],
        false,
    );
    engine.reverse_edge_store = reversed(&engine.edge_store);

    let rows = execute_join(&engine, &clean_tx(), &plan, None).unwrap();

    assert_eq!(plan.node_slots.len(), 3);
    assert_eq!(rows.len(), 4);
    assert!(rows.iter().all(|row| row.path_nodes.len() == 3));
}

#[test]
fn join_without_a_match_for_every_pattern_finds_nothing() {
    let plan = join_plan(
        "MATCH (a:users)-[:works_at]->(c:companies), (a:users)-[:friend]->(b:users) \
         RETURN a, b, c",
    );
    let mut engine = engine_fixture();
    register_edge_type(&mut engine, "friend");

    let rows = execute_join(&engine, &clean_tx(), &plan, None).unwrap();

    assert!(rows.is_empty());
}

#[test]
fn join_needs_a_built_graph() {
    let plan = join_plan(
        "MATCH (a:users)-[:works_at]->(c:companies), (b:users)-[:works_at]->(c:companies) \
         RETURN a, b",
    );
    let mut engine = engine_fixture();
    engine.built = false;

    assert_eq!(
        execute_join(&engine, &clean_tx(), &plan, None),
        Err(GraphError::NotBuilt)
    );
}

#[test]
fn wildcard_path_follows_every_relationship() {
    let plan = wildcard_plan("MATCH p = (a:users)-[r]->(b) RETURN p");
    let engine = engine_fixture();

    let rows = execute_wildcard_path(&engine, &clean_tx(), &plan, None).unwrap();

    assert_eq!(
        rows.iter().map(|row| node_keys(&row.path_nodes)).collect::<Vec<_>>(),
        vec![
            vec!["u1".to_string(), "c1".to_string()],
            vec!["u2".to_string(), "c2".to_string()],
        ]
    );
    assert!(rows.iter().all(|row| row.path_relationships.len() == 1));
}

#[test]
fn wildcard_path_honours_the_limit() {
    let plan = wildcard_plan("MATCH p = (a)-[r]->(b) RETURN p LIMIT 1");
    let engine = engine_fixture();

    let rows = execute_wildcard_path(&engine, &clean_tx(), &plan, None).unwrap();

    assert_eq!(rows.len(), 1);
}

#[test]
fn explain_renders_node_scans() {
    let statement = parse_statement("MATCH (u:users) RETURN u, u.name AS name").unwrap();
    match lower_statement(bind_statement(&statement, &fake_catalog()).unwrap()) {
        PhysicalStatement::NodeScan(plan) => assert_eq!(
            explain_node_scan(&plan),
            "NodeScan(node=u:users, return=[u, name])"
        ),
        other => panic!("expected a node scan: {other:?}"),
    }
}

// ---------------------------------------------------------------------------
// JSON values
// ---------------------------------------------------------------------------

fn number(text: &str) -> Json {
    to_json(&json(text))
}

#[test]
fn json_text_quotes_strings() {
    assert_eq!(to_text(&Json::Text("a\"b\n".to_string())), "\"a\\\"b\\n\"");
    assert_eq!(
        to_text(&Json::Text("\u{1f}\u{8}\u{c}\t\r\\/\u{7f}\u{e9}".to_string())),
        "\"\\u001f\\b\\f\\t\\r\\\\/\u{7f}\u{e9}\""
    );
    assert_eq!(to_text(&to_json(&json("{\"b\": [1, null], \"a\": true}"))), "{\"a\":true,\"b\":[1,null]}");
}

#[test]
fn json_numbers_order_across_representations() {
    assert_eq!(total_json_order(&number("2"), &number("2.5")), JsonOrder::Less);
    assert_eq!(total_json_order(&number("3"), &number("2.5")), JsonOrder::Greater);
    assert_eq!(total_json_order(&number("18446744073709551615"), &number("-1")), JsonOrder::Greater);
    assert_eq!(total_json_order(&number("18446744073709551615"), &number("1.5")), JsonOrder::Greater);
    assert_eq!(total_json_order(&number("2"), &number("2.0")), JsonOrder::Equal);
}

#[test]
fn only_a_float_that_is_no_number_has_no_order() {
    let nan = JsonNumber::Float(Binary64 { bits: f64::NAN.to_bits(), text: "NaN".to_string() });
    let half = JsonNumber::Float(Binary64 { bits: 0.5f64.to_bits(), text: "0.5".to_string() });
    for other in [JsonNumber::Int(-1), JsonNumber::UInt(u64::MAX), half] {
        assert!(order_numbers(&nan, &other).is_err());
        assert!(order_numbers(&other, &nan).is_err());
        assert!(matches!(order_numbers(&other, &other), Ok(JsonOrder::Equal)));
    }
}

#[test]
fn json_order_flips_with_its_arguments() {
    let values = ["null", "true", "1", "1.5", "\"a\"", "\"b\"", "[1]", "{\"a\": 1}"];
    for left in values {
        for right in values {
            let forward = total_json_order(&number(left), &number(right));
            let backward = total_json_order(&number(right), &number(left));
            assert_eq!(forward.reverse(), backward, "{left} against {right}");
        }
    }
}

#[test]
fn parameters_reach_predicates() {
    let physical = lower(bind_query(
        "MATCH (u:users)-[:works_at]->(c:companies) WHERE u.name = $name RETURN u.name AS name",
    ));
    let rows = execute(&engine_fixture(), &physical, None).unwrap();
    let mut params = QueryParams::new();
    params.insert("name".to_string(), Json::Text("Ada".to_string()));

    let projected = project_rows(rows, &physical, &hydrated_fixture(), &params, true).unwrap();

    assert_eq!(projected.len(), 1);
    assert_eq!(projected[0]["name"], "Ada");
}

#[test]
fn hydration_is_needed_for_properties_and_whole_nodes() {
    let coordinates = lower(bind_query(
        "MATCH (u:users)-[:works_at]->(c:companies) RETURN u, c",
    ));
    let property = lower(bind_query(
        "MATCH (u:users)-[:works_at]->(c:companies) RETURN u.name AS name",
    ));
    let filtered = lower(bind_query(
        "MATCH (u:users)-[:works_at]->(c:companies) WHERE u.name = 'Ada' RETURN u",
    ));

    assert!(value::requires_hydration(&coordinates, true));
    assert!(!value::requires_hydration(&coordinates, false));
    assert!(value::requires_hydration(&property, false));
    assert!(value::requires_hydration(&filtered, false));
}
