//! News items served by the news feed.
use vstd::prelude::*;

verus! {

/// One news item of the feed.
#[derive(Debug, Clone)]
pub struct NewsItem {
    pub id: Option<i32>,
    pub title: String,
    pub content: Option<String>,
    pub author: Option<String>,
    pub category: String,
    pub image_url: Option<String>,
    pub created_at: Option<String>,
    pub updated_at: Option<String>,
    pub published: Option<i32>,
}

/// The feed's answer: a success flag and the items.
#[derive(Debug, Clone)]
pub struct NewsApiResponse {
    pub success: bool,
    pub data: Vec<NewsItem>,
}

/// The items to show: those of a successful answer, none otherwise.
pub fn news_items(response: NewsApiResponse) -> (r: Vec<NewsItem>)
    ensures
        response.success ==> r@ == response.data@,
        !response.success ==> r@.len() == 0,
{
    if response.success {
        response.data
    } else {
        Vec::new()
    }
}

} // verus!
