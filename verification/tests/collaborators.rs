use metasrv::comparison_not_eq::{ComparisonNotEqFunction, DataValueComparisonOperator};
use metasrv::keywords_table::{KeywordsTable, TableIdent};
use metasrv::query_fragment_broadcast::{BroadcastQueryFragment, FragmentError, PartitionState};

#[test]
fn keywords_table_is_a_view_over_its_query() {
    let info = KeywordsTable::create(42);
    assert_eq!(info.ident, TableIdent { table_id: 42, seq: 0 });
    assert_eq!(info.desc, "'information_schema'.'keywords'");
    assert_eq!(info.name, "keywords");
    assert_eq!(info.meta.engine, "VIEW");
    assert_eq!(
        info.meta.options,
        vec![("query".to_string(), "SELECT 'CREATE' AS WORD, 1 AS RESERVED".to_string())]
    );
}

#[test]
fn broadcast_takes_an_input_that_is_not_partitioned() {
    let fragment = BroadcastQueryFragment::create(Ok(PartitionState::NotPartition));
    assert_eq!(fragment.get_out_partition(), Ok(PartitionState::Broadcast));
    for state in [PartitionState::Random, PartitionState::HashPartition, PartitionState::Broadcast] {
        let fragment = BroadcastQueryFragment::create(Ok(state));
        assert_eq!(fragment.get_out_partition(), Err(FragmentError::Unimplemented));
    }
    let failed = BroadcastQueryFragment::create(Err(FragmentError::Input));
    assert_eq!(failed.get_out_partition(), Err(FragmentError::Input));
    assert_eq!(failed.finalize(), Err(FragmentError::Unimplemented));
    assert_eq!(failed.rewrite_remote_plan(), Err(FragmentError::Unimplemented));
}

#[test]
fn not_eq_function_compares_for_inequality() {
    let f = ComparisonNotEqFunction::try_create_func("<>");
    assert_eq!(f.op, DataValueComparisonOperator::NotEq);
    let g = ComparisonNotEqFunction::try_create_func("!=");
    assert_eq!(g.op, DataValueComparisonOperator::NotEq);
}
