use facto_exporter::debug::mangle::{demangle, MangleError, NodeType, Token};

fn unqualified(name: &str) -> Vec<Token> {
    vec![
        Token::Type(NodeType::UnqualifiedName),
        Token::Label(name.to_owned()),
        Token::End,
    ]
}

fn nested(prefix: &str, suffix: &str) -> Vec<Token> {
    let mut ts = vec![Token::Type(NodeType::NestedName), Token::Type(NodeType::Prefix)];
    ts.extend(unqualified(prefix));
    ts.push(Token::End);
    ts.push(Token::DoubleColon);
    ts.extend(unqualified(suffix));
    ts.push(Token::End);
    ts
}

#[test]
fn one_pointer_argument() {
    let mut ts = nested("LuaEntity", "luaReadProductsFinished");
    ts.push(Token::OpenParen);
    ts.push(Token::Label("lua_State".to_owned()));
    ts.push(Token::Star);
    ts.push(Token::CloseParen);
    let f = demangle(&ts).expect("valid stream");
    assert_eq!(f.name, "LuaEntity::luaReadProductsFinished");
    assert_eq!(f.args, vec![("lua_State".to_owned(), "*".to_owned())]);
}

#[test]
fn plain_argument_and_const_method() {
    // CraftingMachine::canSortInventory(unsigned char) const
    let mut ts = nested("CraftingMachine", "canSortInventory");
    ts.push(Token::OpenParen);
    ts.push(Token::Label("unsigned char".to_owned()));
    ts.push(Token::CloseParen);
    ts.push(Token::Space);
    ts.push(Token::Const);
    let f = demangle(&ts).expect("valid stream");
    assert_eq!(f.name, "CraftingMachine::canSortInventory");
    assert_eq!(f.args, vec![("unsigned char".to_owned(), String::new())]);
}

#[test]
fn several_reference_arguments() {
    // CraftingMachinePrototype::canHandleRecipe(Recipe const&, ForceData const&)
    let mut ts = nested("CraftingMachinePrototype", "canHandleRecipe");
    ts.push(Token::OpenParen);
    ts.extend(unqualified("Recipe"));
    ts.push(Token::Space);
    ts.push(Token::Const);
    ts.push(Token::Amp);
    ts.push(Token::Comma);
    ts.extend(unqualified("ForceData"));
    ts.push(Token::Space);
    ts.push(Token::Const);
    ts.push(Token::Amp);
    ts.push(Token::CloseParen);
    let f = demangle(&ts).expect("valid stream");
    assert_eq!(f.name, "CraftingMachinePrototype::canHandleRecipe");
    assert_eq!(
        f.args,
        vec![
            ("Recipe".to_owned(), "&".to_owned()),
            ("ForceData".to_owned(), "&".to_owned())
        ]
    );
}

#[test]
fn empty_argument_list() {
    let mut ts = nested("CraftingMachine", "getStatus");
    ts.push(Token::OpenParen);
    ts.push(Token::CloseParen);
    let f = demangle(&ts).expect("valid stream");
    assert_eq!(f.name, "CraftingMachine::getStatus");
    assert_eq!(f.args, vec![]);
}

#[test]
fn leftover_tokens_are_rejected() {
    let mut ts = nested("A", "b");
    ts.push(Token::OpenParen);
    ts.push(Token::CloseParen);
    ts.push(Token::Tilde);
    assert_eq!(demangle(&ts).unwrap_err(), MangleError::Leftover);
}

#[test]
fn non_functions_are_rejected() {
    assert_eq!(
        demangle(&vec![Token::Label("main".to_owned())]).unwrap_err(),
        MangleError::NoMatch
    );
    assert_eq!(demangle(&vec![]).unwrap_err(), MangleError::NoMatch);
    // a nested name without an argument list is not a function
    assert_eq!(
        demangle(&nested("A", "b")).unwrap_err(),
        MangleError::NoMatch
    );
}
