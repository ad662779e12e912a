use openepl::types::Ty;
use openepl::validate::param_list;

#[test]
fn param_lists_name_parameters_from_their_types() {
    assert_eq!(param_list(&[Ty::Int, Ty::Text, Ty::Int]), "n: int, s: text, n2: int");
    assert_eq!(param_list(&[]), "");
}
